//! The band classifier: parses a frequency text in megahertz and looks it
//! up in a fixed, ordered table of inclusive intervals covering the
//! amateur allocations from 137 kHz through 10.5 GHz.  Every interval
//! bound has at most four decimal places, so frequencies are compared
//! exactly as fixed-point values scaled by ten thousand, together with a
//! flag for any non-zero digits past the fourth decimal place.

use vstd::prelude::*;
use vstd::string::StringExecFns;
use crate::chars::{
    is_digit, all_digits, digits_val, digit_val, pow10, str_to_chars, lemma_digits_val_bounds,
    lemma_pow10_values, lemma_pow10_mono, lemma_pow10_pos,
};
use crate::errors::ConvError;
use crate::time::{find_char, find_char_x, digits_value};

verus! {

/// The interval table, in declaration order: lower and upper bound in
/// units of one ten-thousandth of a megahertz, and the designator.  The
/// first containing interval wins.  The 3 cm band appears twice because
/// its allocation is gazetted as two disjoint sub-ranges.
pub open spec fn band_table() -> Seq<(int, int, Seq<char>)> {
    seq![
        (1357int, 1378int, seq!['2', '1', '9', '0', 'm']),
        (4720int, 4790int, seq!['6', '3', '0', 'm']),
        (18000int, 19125int, seq!['1', '6', '0', 'm']),
        (35000int, 38050int, seq!['8', '0', 'm']),
        (70000int, 72000int, seq!['4', '0', 'm']),
        (100000int, 101500int, seq!['3', '0', 'm']),
        (140000int, 143500int, seq!['2', '0', 'm']),
        (180000int, 181680int, seq!['1', '7', 'm']),
        (210000int, 214500int, seq!['1', '5', 'm']),
        (240000int, 249900int, seq!['1', '2', 'm']),
        (280000int, 297000int, seq!['1', '0', 'm']),
        (500000int, 540000int, seq!['6', 'm']),
        (1440000int, 1460000int, seq!['2', 'm']),
        (4300000int, 4400000int, seq!['7', '0', 'c', 'm']),
        (12000000int, 13000000int, seq!['2', '3', 'c', 'm']),
        (24000000int, 24500000int, seq!['1', '3', 'c', 'm']),
        (56500000int, 58500000int, seq!['6', 'c', 'm']),
        (100000000int, 102500000int, seq!['3', 'c', 'm']),
        (104500000int, 105000000int, seq!['3', 'c', 'm']),
    ]
}

/// Whether a non-negative frequency lies in one interval, both ends
/// inclusive.  A frequency equal to the upper bound but with non-zero
/// digits past the fourth decimal place lies just above it.
pub open spec fn in_band(scaled: int, extra: bool, lo: int, hi: int) -> bool {
    lo <= scaled && (scaled < hi || (scaled == hi && !extra))
}

/// First containing interval of the table from index `i` on.
pub open spec fn band_lookup(scaled: int, extra: bool, i: int) -> Option<Seq<char>>
    decreases band_table().len() - i,
{
    if i < 0 || i >= band_table().len() {
        None
    } else if in_band(scaled, extra, band_table()[i].0, band_table()[i].1) {
        Some(band_table()[i].2)
    } else {
        band_lookup(scaled, extra, i + 1)
    }
}

/// The designator of a parsed frequency, if any interval contains it.
/// Negative frequencies lie below every interval.
pub open spec fn band_of(neg: bool, scaled: int, extra: bool) -> Option<Seq<char>> {
    if neg {
        None
    } else {
        band_lookup(scaled, extra, 0)
    }
}

/// The first four fractional digits as a number of ten-thousandths.
pub open spec fn frac_scale4(fp: Seq<char>) -> int {
    if fp.len() >= 4 {
        digits_val(fp.subrange(0, 4))
    } else {
        digits_val(fp) * pow10(4 - fp.len())
    }
}

/// Whether any fractional digit past the fourth is non-zero.
pub open spec fn frac_extra(fp: Seq<char>) -> bool {
    exists|i: int| 4 <= i < fp.len() && digit_val(#[trigger] fp[i]) != 0
}

/// The parsed `(negative, scaled, extra)` triple of a frequency text of
/// the shape `[+-]? digits [. digits]` with at least one digit, or `None`.
pub open spec fn freq_parse_spec(s: Seq<char>) -> Option<(bool, int, bool)> {
    let start: int = if s.len() > 0 && (s[0] == '+' || s[0] == '-') {
        1
    } else {
        0
    };
    let neg = s.len() > 0 && s[0] == '-';
    let k = find_char(s, '.', start);
    if k == s.len() {
        let ip = s.subrange(start, s.len() as int);
        if ip.len() >= 1 && all_digits(ip) {
            Some((neg, digits_val(ip) * 10000, false))
        } else {
            None
        }
    } else {
        let ip = s.subrange(start, k);
        let fp = s.subrange(k + 1, s.len() as int);
        if ip.len() + fp.len() >= 1 && all_digits(ip) && all_digits(fp) {
            Some((neg, digits_val(ip) * 10000 + frac_scale4(fp), frac_extra(fp)))
        } else {
            None
        }
    }
}

/// A run of zero digits has value zero.
proof fn lemma_digits_val_zeros(z: Seq<char>)
    requires
        forall|k: int| 0 <= k < z.len() ==> digit_val(#[trigger] z[k]) == 0,
    ensures
        digits_val(z) == 0,
    decreases z.len(),
{
    if z.len() > 0 {
        lemma_digits_val_zeros(z.drop_last());
    }
}

/// Leading zero digits do not change the value of a digit run.
proof fn lemma_digits_val_leading_zeros(z: Seq<char>, rest: Seq<char>)
    requires
        forall|k: int| 0 <= k < z.len() ==> digit_val(#[trigger] z[k]) == 0,
    ensures
        digits_val(z + rest) == digits_val(rest),
    decreases rest.len(),
{
    if rest.len() == 0 {
        assert(z + rest =~= z);
        lemma_digits_val_zeros(z);
    } else {
        assert((z + rest).drop_last() =~= z + rest.drop_last());
        assert((z + rest).last() == rest.last());
        lemma_digits_val_leading_zeros(z, rest.drop_last());
    }
}

/// A digit run with a non-zero first digit is at least its place value.
proof fn lemma_digits_val_first_nonzero(s: Seq<char>)
    requires
        all_digits(s),
        s.len() >= 1,
        digit_val(s[0]) >= 1,
    ensures
        digits_val(s) >= pow10(s.len() - 1),
    decreases s.len(),
{
    if s.len() == 1 {
        assert(s.drop_last() =~= Seq::<char>::empty());
        assert(digits_val(Seq::<char>::empty()) == 0);
        assert(s.last() == s[0]);
    } else {
        lemma_digits_val_first_nonzero(s.drop_last());
        lemma_pow10_pos(s.len() - 2);
        assert(digit_val(s.last()) >= 0);
    }
}

/// A frequency above the highest upper bound lies in no interval.
proof fn lemma_band_of_above(scaled: int, extra: bool)
    requires
        scaled > 105000000,
    ensures
        band_of(false, scaled, extra) is None,
{
    reveal_with_fuel(band_lookup, 21);
}

/// Both bounds of every interval classify to that interval's designator:
/// the intervals are inclusive on both ends, and no earlier interval
/// shadows a later one's bounds.
pub proof fn lemma_band_bounds_inclusive()
    ensures
        forall|i: int|
            0 <= i < band_table().len() ==> band_of(
                false,
                (#[trigger] band_table()[i]).0,
                false,
            ) == Some(band_table()[i].2) && band_of(false, band_table()[i].1, false) == Some(
                band_table()[i].2,
            ),
{
    reveal_with_fuel(band_lookup, 21);
    assert forall|i: int| 0 <= i < band_table().len() implies band_of(
        false,
        (#[trigger] band_table()[i]).0,
        false,
    ) == Some(band_table()[i].2) && band_of(false, band_table()[i].1, false) == Some(
        band_table()[i].2,
    ) by {
        reveal_with_fuel(band_lookup, 21);
    }
}


/// Whether `s[from..to]` consists of digits only, executably.
fn all_digits_check(s: &Vec<char>, from: usize, to: usize) -> (b: bool)
    requires
        from <= to <= s@.len(),
    ensures
        b == all_digits(s@.subrange(from as int, to as int)),
{
    let mut i = from;
    while i < to
        invariant
            from <= i <= to <= s@.len(),
            forall|k: int| from <= k < i ==> is_digit(#[trigger] s@[k]),
        decreases to - i,
    {
        let c = s[i] as u32;
        if !(48 <= c && c <= 57) {
            assert(s@.subrange(from as int, to as int)[i - from] == s@[i as int]);
            return false;
        }
        i += 1;
    }
    assert forall|k: int| 0 <= k < to - from implies is_digit(
        #[trigger] s@.subrange(from as int, to as int)[k],
    ) by {
        assert(s@.subrange(from as int, to as int)[k] == s@[k + from]);
    }
    true
}

/// The parsed frequency, executably.  The last component of the result
/// flags a value whose whole part has more than five significant digits:
/// such a value lies above every interval of the table, and its exact
/// scaled form is not returned.
fn parse_freq_chars(s: &Vec<char>) -> (r: Option<(bool, u32, bool, bool)>)
    ensures
        match r {
            None => freq_parse_spec(s@) is None,
            Some(t) => {
                &&& freq_parse_spec(s@) is Some
                &&& ({
                    let p = freq_parse_spec(s@)->Some_0;
                    if t.3 {
                        p.1 > 105000000
                    } else {
                        p.0 == t.0 && p.1 == t.1 as int && p.2 == t.2
                    }
                })
            },
        },
{
    let n = s.len();
    let mut start: usize = 0;
    let mut neg = false;
    if n > 0 {
        let c0 = s[0];
        if c0 == '+' || c0 == '-' {
            start = 1;
            neg = c0 == '-';
        }
    }
    let k = find_char_x(s, '.', start);
    let ip_end = k;
    if ip_end - start + (if k < n { n - k - 1 } else { 0 }) < 1 {
        return None;
    }
    if !all_digits_check(s, start, ip_end) {
        return None;
    }
    if k < n && !all_digits_check(s, k + 1, n) {
        return None;
    }
    let ghost ip = s@.subrange(start as int, ip_end as int);
    let mut z = start;
    while z < ip_end && s[z] as u32 == 48
        invariant
            start <= z <= ip_end <= s@.len(),
            forall|j: int| start <= j < z ==> digit_val(#[trigger] s@[j]) == 0,
        decreases ip_end - z,
    {
        z += 1;
    }
    proof {
        let zeros = s@.subrange(start as int, z as int);
        let rest = s@.subrange(z as int, ip_end as int);
        assert forall|j: int| 0 <= j < zeros.len() implies digit_val(#[trigger] zeros[j]) == 0 by {
            assert(zeros[j] == s@[j + start]);
        }
        lemma_digits_val_leading_zeros(zeros, rest);
        assert(zeros + rest =~= ip);
        assert forall|j: int| 0 <= j < rest.len() implies is_digit(#[trigger] rest[j]) by {
            assert(rest[j] == ip[j + (z - start)]);
        }
        lemma_pow10_values();
    }
    let eff = ip_end - z;
    if eff > 5 {
        proof {
            let rest = s@.subrange(z as int, ip_end as int);
            lemma_digits_val_first_nonzero(rest);
            lemma_pow10_mono(5, eff - 1);
            if k < s@.len() {
                let fp = s@.subrange(k + 1, s@.len() as int);
                lemma_digits_val_bounds(fp);
                if fp.len() >= 4 {
                    lemma_digits_val_bounds(fp.subrange(0, 4));
                } else {
                    lemma_pow10_pos(4 - fp.len());
                }
            }
        }
        return Some((neg, 0, false, true));
    }
    let v = match digits_value(s, z, ip_end) {
        Some(v) => v,
        None => {
            return None;
        },
    };
    proof {
        lemma_digits_val_bounds(s@.subrange(z as int, ip_end as int));
        lemma_pow10_mono((ip_end - z) as int, 5);
    }
    if k == n {
        return Some((neg, v * 10000, false, false));
    }
    let flen = n - k - 1;
    let take: usize = if flen >= 4 {
        4
    } else {
        flen
    };
    let t = match digits_value(s, k + 1, k + 1 + take) {
        Some(t) => t,
        None => {
            proof {
                let fp = s@.subrange(k + 1, s@.len() as int);
                assert forall|j: int| 0 <= j < take implies is_digit(
                    #[trigger] s@.subrange(k + 1, (k + 1 + take) as int)[j],
                ) by {
                    assert(s@.subrange(k + 1, (k + 1 + take) as int)[j] == fp[j]);
                }
            }
            return None;
        },
    };
    proof {
        lemma_digits_val_bounds(s@.subrange(k + 1, (k + 1 + take) as int));
        lemma_pow10_mono(take as int, 4);
    }
    let ghost fp = s@.subrange(k + 1, s@.len() as int);
    let f4: u32 = if flen >= 4 {
        proof {
            assert(fp.subrange(0, 4) =~= s@.subrange(k + 1, (k + 1 + take) as int));
        }
        t
    } else {
        let p: u32 = if flen == 0 {
            10000
        } else if flen == 1 {
            1000
        } else if flen == 2 {
            100
        } else {
            10
        };
        proof {
            assert(fp =~= s@.subrange(k + 1, (k + 1 + take) as int));
            assert(p == pow10(4 - fp.len()));
            assert(t * p < 100000000) by (nonlinear_arith)
                requires
                    0 <= t < 10000,
                    0 < p <= 10000,
            ;
        }
        t * p
    };
    let mut ex = false;
    if flen > 4 {
        let mut j = k + 5;
        while j < n
            invariant
                k + 5 <= j <= n,
                n == s@.len(),
                fp == s@.subrange(k + 1, s@.len() as int),
                ex == exists|i: int| 4 <= i < j - (k + 1) && digit_val(#[trigger] fp[i]) != 0,
            decreases n - j,
        {
            if s[j] as u32 != 48 {
                proof {
                    assert(fp[j - (k + 1)] == s@[j as int]);
                    assert(digit_val(fp[j - (k + 1)]) != 0 || !is_digit(s@[j as int]));
                }
                ex = true;
            }
            proof {
                if !ex {
                    assert forall|i: int| 4 <= i < j + 1 - (k + 1) implies digit_val(
                        #[trigger] fp[i],
                    ) == 0 by {
                        assert(fp[i] == s@[i + k + 1]);
                    }
                }
            }
            j += 1;
        }
    }
    assert(ex == frac_extra(fp));
    Some((neg, v * 10000 + f4, ex, false))
}


/// The designator of a parsed non-oversized frequency, executably.
#[verifier::rlimit(100)]
fn classify_scaled(neg: bool, scaled: u32, extra: bool) -> (r: Option<String>)
    ensures
        match r {
            Some(name) => band_of(neg, scaled as int, extra) == Some(name@),
            None => band_of(neg, scaled as int, extra) is None,
        },
{
    proof {
        reveal_with_fuel(band_lookup, 21);
    }
    if neg {
        return None;
    }
    if scaled >= 1357 && (scaled < 1378 || (scaled == 1378 && !extra)) {
        let v = String::from_str("2190m");
        proof {
            reveal_strlit("2190m");
            assert(v@ =~= seq!['2', '1', '9', '0', 'm']);
        }
        return Some(v);
    }
    if scaled >= 4720 && (scaled < 4790 || (scaled == 4790 && !extra)) {
        let v = String::from_str("630m");
        proof {
            reveal_strlit("630m");
            assert(v@ =~= seq!['6', '3', '0', 'm']);
        }
        return Some(v);
    }
    if scaled >= 18000 && (scaled < 19125 || (scaled == 19125 && !extra)) {
        let v = String::from_str("160m");
        proof {
            reveal_strlit("160m");
            assert(v@ =~= seq!['1', '6', '0', 'm']);
        }
        return Some(v);
    }
    if scaled >= 35000 && (scaled < 38050 || (scaled == 38050 && !extra)) {
        let v = String::from_str("80m");
        proof {
            reveal_strlit("80m");
            assert(v@ =~= seq!['8', '0', 'm']);
        }
        return Some(v);
    }
    if scaled >= 70000 && (scaled < 72000 || (scaled == 72000 && !extra)) {
        let v = String::from_str("40m");
        proof {
            reveal_strlit("40m");
            assert(v@ =~= seq!['4', '0', 'm']);
        }
        return Some(v);
    }
    if scaled >= 100000 && (scaled < 101500 || (scaled == 101500 && !extra)) {
        let v = String::from_str("30m");
        proof {
            reveal_strlit("30m");
            assert(v@ =~= seq!['3', '0', 'm']);
        }
        return Some(v);
    }
    if scaled >= 140000 && (scaled < 143500 || (scaled == 143500 && !extra)) {
        let v = String::from_str("20m");
        proof {
            reveal_strlit("20m");
            assert(v@ =~= seq!['2', '0', 'm']);
        }
        return Some(v);
    }
    if scaled >= 180000 && (scaled < 181680 || (scaled == 181680 && !extra)) {
        let v = String::from_str("17m");
        proof {
            reveal_strlit("17m");
            assert(v@ =~= seq!['1', '7', 'm']);
        }
        return Some(v);
    }
    if scaled >= 210000 && (scaled < 214500 || (scaled == 214500 && !extra)) {
        let v = String::from_str("15m");
        proof {
            reveal_strlit("15m");
            assert(v@ =~= seq!['1', '5', 'm']);
        }
        return Some(v);
    }
    if scaled >= 240000 && (scaled < 249900 || (scaled == 249900 && !extra)) {
        let v = String::from_str("12m");
        proof {
            reveal_strlit("12m");
            assert(v@ =~= seq!['1', '2', 'm']);
        }
        return Some(v);
    }
    if scaled >= 280000 && (scaled < 297000 || (scaled == 297000 && !extra)) {
        let v = String::from_str("10m");
        proof {
            reveal_strlit("10m");
            assert(v@ =~= seq!['1', '0', 'm']);
        }
        return Some(v);
    }
    if scaled >= 500000 && (scaled < 540000 || (scaled == 540000 && !extra)) {
        let v = String::from_str("6m");
        proof {
            reveal_strlit("6m");
            assert(v@ =~= seq!['6', 'm']);
        }
        return Some(v);
    }
    if scaled >= 1440000 && (scaled < 1460000 || (scaled == 1460000 && !extra)) {
        let v = String::from_str("2m");
        proof {
            reveal_strlit("2m");
            assert(v@ =~= seq!['2', 'm']);
        }
        return Some(v);
    }
    if scaled >= 4300000 && (scaled < 4400000 || (scaled == 4400000 && !extra)) {
        let v = String::from_str("70cm");
        proof {
            reveal_strlit("70cm");
            assert(v@ =~= seq!['7', '0', 'c', 'm']);
        }
        return Some(v);
    }
    if scaled >= 12000000 && (scaled < 13000000 || (scaled == 13000000 && !extra)) {
        let v = String::from_str("23cm");
        proof {
            reveal_strlit("23cm");
            assert(v@ =~= seq!['2', '3', 'c', 'm']);
        }
        return Some(v);
    }
    if scaled >= 24000000 && (scaled < 24500000 || (scaled == 24500000 && !extra)) {
        let v = String::from_str("13cm");
        proof {
            reveal_strlit("13cm");
            assert(v@ =~= seq!['1', '3', 'c', 'm']);
        }
        return Some(v);
    }
    if scaled >= 56500000 && (scaled < 58500000 || (scaled == 58500000 && !extra)) {
        let v = String::from_str("6cm");
        proof {
            reveal_strlit("6cm");
            assert(v@ =~= seq!['6', 'c', 'm']);
        }
        return Some(v);
    }
    if scaled >= 100000000 && (scaled < 102500000 || (scaled == 102500000 && !extra)) {
        let v = String::from_str("3cm");
        proof {
            reveal_strlit("3cm");
            assert(v@ =~= seq!['3', 'c', 'm']);
        }
        return Some(v);
    }
    if scaled >= 104500000 && (scaled < 105000000 || (scaled == 105000000 && !extra)) {
        let v = String::from_str("3cm");
        proof {
            reveal_strlit("3cm");
            assert(v@ =~= seq!['3', 'c', 'm']);
        }
        return Some(v);
    }
    None
}

/// Classifies a frequency text in megahertz into its ADIF band
/// designator.  A text that is no plain decimal number is a
/// `FormatError`; a number lying in no interval of the table is a
/// `RangeError`.
pub fn adif_band_from_hamlog(h_freq: &str) -> (r: Result<String, ConvError>)
    ensures
        match r {
            Ok(name) => {
                &&& freq_parse_spec(h_freq@) is Some
                &&& ({
                    let p = freq_parse_spec(h_freq@)->Some_0;
                    band_of(p.0, p.1, p.2) == Some(name@)
                })
            },
            Err(e) => match freq_parse_spec(h_freq@) {
                None => e == ConvError::FormatError,
                Some(p) => band_of(p.0, p.1, p.2) is None && e == ConvError::RangeError,
            },
        },
{
    let chars = str_to_chars(h_freq);
    let Some((neg, scaled, extra, oversized)) = parse_freq_chars(&chars) else {
        return Err(ConvError::FormatError);
    };
    if oversized {
        proof {
            let p = freq_parse_spec(h_freq@)->Some_0;
            lemma_band_of_above(p.1, p.2);
        }
        return Err(ConvError::RangeError);
    }
    match classify_scaled(neg, scaled, extra) {
        Some(name) => Ok(name),
        None => Err(ConvError::RangeError),
    }
}

/// A designator returned by the table scan is a designator of the table.
proof fn lemma_band_lookup_in_table(scaled: int, extra: bool, i: int)
    ensures
        band_lookup(scaled, extra, i) matches Some(name) ==> exists|j: int|
            i <= j < band_table().len() && name == (#[trigger] band_table()[j]).2,
    decreases band_table().len() - i,
{
    if 0 <= i < band_table().len() {
        if in_band(scaled, extra, band_table()[i].0, band_table()[i].1) {
            assert(band_lookup(scaled, extra, i)->Some_0 == (band_table()[i]).2);
        } else {
            lemma_band_lookup_in_table(scaled, extra, i + 1);
        }
    }
}

/// A classified frequency's designator is drawn from the table's fixed
/// vocabulary.
pub proof fn lemma_band_of_in_table(neg: bool, scaled: int, extra: bool)
    ensures
        band_of(neg, scaled, extra) matches Some(name) ==> exists|j: int|
            0 <= j < band_table().len() && name == (#[trigger] band_table()[j]).2,
{
    if !neg {
        lemma_band_lookup_in_table(scaled, extra, 0);
    }
}

} // verus!
