//! Timestamp normalization. The tracking tool writes a compact local
//! timestamp `YYYYMMDDTHHMMSSZ`; with the configured numeric offset
//! `+HHMM`/`-HHMM` appended it denotes an absolute instant, modeled as
//! whole seconds since 1970-01-01T00:00:00 UTC in the proleptic Gregorian
//! calendar. The tracker's own records write the same instant as
//! `YYYY-MM-DDTHH:MM:SS.mmm+HHMM`; for comparison the millisecond digits
//! are overwritten with zeros, so equality is equality of whole seconds.

use vstd::prelude::*;
use vstd::string::*;

use crate::json::{digit_char, digit_val, is_digit};

verus! {

/// A leap year of the proleptic Gregorian calendar.
pub open spec fn is_leap(y: int) -> bool {
    y % 4 == 0 && (y % 100 != 0 || y % 400 == 0)
}

pub open spec fn days_in_month(y: int, m: int) -> int {
    if m == 2 {
        if is_leap(y) {
            29
        } else {
            28
        }
    } else if m == 4 || m == 6 || m == 9 || m == 11 {
        30
    } else {
        31
    }
}

/// Days in the months of year `y` before month `m`.
pub open spec fn days_before_month(y: int, m: int) -> int
    decreases m when m >= 1
{
    if m <= 1 {
        0
    } else {
        days_before_month(y, m - 1) + days_in_month(y, m - 1)
    }
}

/// The number of leap years in `[0, y)`; year 0 is a leap year.
pub open spec fn leap_count(y: int) -> int {
    if y <= 0 {
        0
    } else {
        1 + (y - 1) / 4 - (y - 1) / 100 + (y - 1) / 400
    }
}

/// The day number of the civil date `y-m-d`, counting 0000-01-01 as day 0.
pub open spec fn day_number(y: int, m: int, d: int) -> int {
    365 * y + leap_count(y) + days_before_month(y, m) + (d - 1)
}

/// The day number of 1970-01-01.
pub open spec fn epoch_day() -> int {
    day_number(1970, 1, 1)
}

pub open spec fn all_digits(s: Seq<char>, i: int, j: int) -> bool {
    forall|l: int| i <= l < j ==> 0 <= l < s.len() && is_digit(#[trigger] s[l])
}

/// The value of the two digits at `i`.
pub open spec fn two(s: Seq<char>, i: int) -> int {
    digit_val(s[i]) * 10 + digit_val(s[i + 1])
}

/// The value of the four digits at `i`.
pub open spec fn four(s: Seq<char>, i: int) -> int {
    two(s, i) * 100 + two(s, i + 2)
}

pub open spec fn valid_date(y: int, m: int, d: int) -> bool {
    1 <= m <= 12 && 1 <= d <= days_in_month(y, m)
}

pub open spec fn valid_time(h: int, mi: int, sec: int) -> bool {
    0 <= h < 24 && 0 <= mi < 60 && 0 <= sec < 60
}

/// A well-formed compact timestamp `YYYYMMDDTHHMMSSZ`.
pub open spec fn valid_compact(s: Seq<char>) -> bool {
    &&& s.len() == 16
    &&& all_digits(s, 0, 8)
    &&& s[8] == 'T'
    &&& all_digits(s, 9, 15)
    &&& s[15] == 'Z'
    &&& valid_date(four(s, 0), two(s, 4), two(s, 6))
    &&& valid_time(two(s, 9), two(s, 11), two(s, 13))
}

/// A well-formed numeric offset `+HHMM` or `-HHMM`.
pub open spec fn valid_offset(o: Seq<char>) -> bool {
    &&& o.len() == 5
    &&& (o[0] == '+' || o[0] == '-')
    &&& all_digits(o, 1, 5)
    &&& two(o, 1) <= 23
    &&& two(o, 3) <= 59
}

/// The offset in seconds east of UTC.
pub open spec fn offset_secs(o: Seq<char>) -> int {
    let v = two(o, 1) * 3600 + two(o, 3) * 60;
    if o[0] == '-' {
        -v
    } else {
        v
    }
}

/// The absolute instant a valid compact timestamp denotes under a valid
/// offset, in seconds since the epoch.
pub open spec fn compact_instant(s: Seq<char>, o: Seq<char>) -> int {
    (day_number(four(s, 0), two(s, 4), two(s, 6)) - epoch_day()) * 86400 + two(s, 9) * 3600 + two(
        s,
        11,
    ) * 60 + two(s, 13) - offset_secs(o)
}

/// A tracker-side start string with its millisecond digits overwritten
/// with zeros, as the comparison requires; a string too short to carry
/// them is left as it stands (and can only fail the shape check).
pub open spec fn corrected(s: Seq<char>) -> Seq<char> {
    if s.len() >= 23 {
        s.subrange(0, 20) + seq!['0', '0', '0'] + s.subrange(23, s.len() as int)
    } else {
        s
    }
}

/// A well-formed corrected tracker start string
/// `YYYY-MM-DDTHH:MM:SS.000+HHMM`.
pub open spec fn valid_remote(c: Seq<char>) -> bool {
    &&& c.len() == 28
    &&& all_digits(c, 0, 4)
    &&& c[4] == '-'
    &&& all_digits(c, 5, 7)
    &&& c[7] == '-'
    &&& all_digits(c, 8, 10)
    &&& c[10] == 'T'
    &&& all_digits(c, 11, 13)
    &&& c[13] == ':'
    &&& all_digits(c, 14, 16)
    &&& c[16] == ':'
    &&& all_digits(c, 17, 19)
    &&& c[19] == '.'
    &&& c[20] == '0' && c[21] == '0' && c[22] == '0'
    &&& valid_offset(c.subrange(23, 28))
    &&& valid_date(four(c, 0), two(c, 5), two(c, 8))
    &&& valid_time(two(c, 11), two(c, 14), two(c, 17))
}

pub open spec fn remote_epoch(c: Seq<char>) -> int {
    (day_number(four(c, 0), two(c, 5), two(c, 8)) - epoch_day()) * 86400 + two(c, 11) * 3600 + two(
        c,
        14,
    ) * 60 + two(c, 17) - offset_secs(c.subrange(23, 28))
}

/// The instant a tracker-side start string denotes after millisecond
/// correction, if its corrected form is well-formed.
pub open spec fn spec_remote_instant(s: Seq<char>) -> Option<int> {
    let c = corrected(s);
    if valid_remote(c) {
        Some(remote_epoch(c))
    } else {
        None
    }
}

/// The upload representation of a valid compact timestamp: ISO-8601 with
/// the milliseconds fixed to `.000` and the numeric offset appended.
pub open spec fn started_repr(s: Seq<char>, o: Seq<char>) -> Seq<char> {
    s.subrange(0, 4) + seq!['-'] + s.subrange(4, 6) + seq!['-'] + s.subrange(6, 8) + seq!['T']
        + s.subrange(9, 11) + seq![':'] + s.subrange(11, 13) + seq![':'] + s.subrange(13, 15)
        + seq!['.', '0', '0', '0'] + o
}

proof fn lemma_days_before_month_bounds(y: int, m: int)
    requires
        1 <= m <= 13,
    ensures
        0 <= days_before_month(y, m) <= 31 * (m - 1),
    decreases m,
{
    if m > 1 {
        lemma_days_before_month_bounds(y, m - 1);
    }
}

proof fn lemma_day_number_bounds(y: int, m: int, d: int)
    requires
        0 <= y <= 9999,
        valid_date(y, m, d),
    ensures
        0 <= day_number(y, m, d) <= 3660000,
{
    lemma_days_before_month_bounds(y, m);
    lemma_leap_count_bounds(y);
}

proof fn lemma_leap_count_bounds(y: int)
    requires
        0 <= y <= 9999,
    ensures
        0 <= leap_count(y) <= 2524,
{
    if y > 0 {
        assert((y - 1) / 100 <= (y - 1) / 4 && 0 <= (y - 1) / 400 <= 24 && (y - 1) / 4
            <= 2499) by (nonlinear_arith)
            requires 1 <= y <= 9999
        ;
    }
}

fn digits_range(s: &str, i: usize, j: usize) -> (r: bool)
    requires
        i <= j <= s@.len(),
    ensures
        r == all_digits(s@, i as int, j as int),
{
    let mut k: usize = i;
    while k < j && digit_char(s.get_char(k))
        invariant
            i <= k <= j <= s@.len(),
            forall|l: int| i <= l < k ==> 0 <= l < s@.len() && is_digit(#[trigger] s@[l]),
        decreases j - k,
    {
        k = k + 1;
    }
    if k == j {
        true
    } else {
        assert(!all_digits(s@, i as int, j as int));
        false
    }
}

fn two_at(s: &str, i: usize) -> (r: u32)
    requires
        i + 2 <= s@.len(),
        all_digits(s@, i as int, i as int + 2),
    ensures
        r == two(s@, i as int),
        r <= 99,
{
    let n = s.unicode_len();
    proof {
        assert(is_digit(s@[i as int]));
        assert(is_digit(s@[i as int + 1]));
    }
    let a = (s.get_char(i) as u32) - 48;
    let b = (s.get_char(i + 1) as u32) - 48;
    a * 10 + b
}

fn four_at(s: &str, i: usize) -> (r: u32)
    requires
        i + 4 <= s@.len(),
        all_digits(s@, i as int, i as int + 4),
    ensures
        r == four(s@, i as int),
        r <= 9999,
{
    let n = s.unicode_len();
    proof {
        assert(all_digits(s@, i as int, i as int + 2));
        assert(all_digits(s@, i as int + 2, i as int + 4));
    }
    let hi = two_at(s, i);
    let lo = two_at(s, i + 2);
    hi * 100 + lo
}

fn month_days(y: u32, m: u32) -> (r: u32)
    requires
        1 <= m <= 12,
    ensures
        r == days_in_month(y as int, m as int),
{
    if m == 2 {
        let leap = y % 4 == 0 && (y % 100 != 0 || y % 400 == 0);
        assert(leap == is_leap(y as int));
        if leap {
            29
        } else {
            28
        }
    } else if m == 4 || m == 6 || m == 9 || m == 11 {
        30
    } else {
        31
    }
}

fn month_prefix_days(y: u32, m: u32) -> (r: u32)
    requires
        1 <= m <= 13,
    ensures
        r == days_before_month(y as int, m as int),
        r <= 372,
    decreases m,
{
    proof {
        lemma_days_before_month_bounds(y as int, m as int);
    }
    if m <= 1 {
        0
    } else {
        let prev = month_prefix_days(y, m - 1);
        prev + month_days(y, m - 1)
    }
}

fn civil_day_number(y: u32, m: u32, d: u32) -> (r: u32)
    requires
        y <= 9999,
        valid_date(y as int, m as int, d as int),
    ensures
        r == day_number(y as int, m as int, d as int),
        r <= 3660000,
{
    proof {
        lemma_day_number_bounds(y as int, m as int, d as int);
    }
    let leaps: u32 = if y == 0 {
        0
    } else {
        proof {
            assert(0 <= (y - 1) as int / 4 <= y - 1) by (nonlinear_arith)
                requires 1 <= y <= 9999
            ;
            assert(0 <= (y - 1) as int / 100 <= y - 1) by (nonlinear_arith)
                requires 1 <= y <= 9999
            ;
            assert(0 <= (y - 1) as int / 400 <= y - 1) by (nonlinear_arith)
                requires 1 <= y <= 9999
            ;
            assert((y - 1) as int / 100 <= (y - 1) as int / 4) by (nonlinear_arith)
                requires 1 <= y <= 9999
            ;
        }
        let a = (y - 1) / 4;
        let b = (y - 1) / 100;
        let c = (y - 1) / 400;
        1 + a - b + c
    };
    assert(leaps == leap_count(y as int));
    365 * y + leaps + month_prefix_days(y, m) + (d - 1)
}

/// Parses a compact timestamp under the configured offset into the
/// absolute instant it denotes; a malformed timestamp or offset yields
/// nothing.
pub fn parse_compact(s: &str, off: &str) -> (r: Option<i64>)
    ensures
        (r is Some) <==> (valid_compact(s@) && valid_offset(off@)),
        r matches Some(e) ==> e == compact_instant(s@, off@) && -400000000000 <= e
            <= 400000000000,
{
    let n = s.unicode_len();
    if n != 16 {
        return None;
    }
    if !digits_range(s, 0, 8) || s.get_char(8) != 'T' || !digits_range(s, 9, 15) || s.get_char(15)
        != 'Z' {
        return None;
    }
    let y = four_at(s, 0);
    let m = two_at(s, 4);
    let d = two_at(s, 6);
    let h = two_at(s, 9);
    let mi = two_at(s, 11);
    let sec = two_at(s, 13);
    if !(1 <= m && m <= 12) {
        return None;
    }
    if !(1 <= d && d <= month_days(y, m)) {
        return None;
    }
    if !(h < 24 && mi < 60 && sec < 60) {
        return None;
    }
    let osecs = match parse_offset(off) {
        Some(v) => v,
        None => {
            return None;
        },
    };
    let days = civil_day_number(y, m, d);
    let e: i64 = ((days as i64) - 719528) * 86400 + (h as i64) * 3600 + (mi as i64) * 60 + (
    sec as i64) - osecs;
    proof {
        assert(epoch_day() == 719528);
    }
    Some(e)
}

/// Parses a numeric offset `+HHMM`/`-HHMM` into seconds east of UTC.
pub fn parse_offset(off: &str) -> (r: Option<i64>)
    ensures
        (r is Some) <==> valid_offset(off@),
        r matches Some(v) ==> v == offset_secs(off@) && -86399 <= v <= 86399,
{
    let n = off.unicode_len();
    if n != 5 {
        return None;
    }
    let sign = off.get_char(0);
    if !(sign == '+' || sign == '-') {
        return None;
    }
    if !digits_range(off, 1, 5) {
        return None;
    }
    let hh = two_at(off, 1);
    let mm = two_at(off, 3);
    if !(hh <= 23 && mm <= 59) {
        return None;
    }
    let v: i64 = (hh as i64) * 3600 + (mm as i64) * 60;
    if sign == '-' {
        Some(-v)
    } else {
        Some(v)
    }
}

/// Parses a tracker-side start string, with its millisecond digits treated
/// as zeros, into the absolute instant it denotes.
pub fn parse_remote_started(s: &str) -> (r: Option<i64>)
    ensures
        match r {
            Some(e) => spec_remote_instant(s@) == Some(e as int),
            None => spec_remote_instant(s@) is None,
        },
{
    let n = s.unicode_len();
    if n != 28 {
        proof {
            if s@.len() >= 23 {
                assert(corrected(s@).len() == s@.len());
            }
        }
        return None;
    }
    let ghost c = corrected(s@);
    proof {
        assert(c.len() == 28);
        assert forall|l: int| 0 <= l < 28 implies #[trigger] c[l] == (if 20 <= l < 23 {
            '0'
        } else {
            s@[l]
        }) by {}
    }
    if !digits_range(s, 0, 4) || s.get_char(4) != '-' || !digits_range(s, 5, 7) || s.get_char(7)
        != '-' || !digits_range(s, 8, 10) || s.get_char(10) != 'T' || !digits_range(s, 11, 13)
        || s.get_char(13) != ':' || !digits_range(s, 14, 16) || s.get_char(16) != ':'
        || !digits_range(s, 17, 19) || s.get_char(19) != '.' {
        proof {
            assert(!valid_remote(c));
        }
        return None;
    }
    let y = four_at(s, 0);
    let m = two_at(s, 5);
    let d = two_at(s, 8);
    let h = two_at(s, 11);
    let mi = two_at(s, 14);
    let sec = two_at(s, 17);
    proof {
        assert(four(c, 0) == four(s@, 0));
        assert(two(c, 5) == two(s@, 5));
        assert(two(c, 8) == two(s@, 8));
        assert(two(c, 11) == two(s@, 11));
        assert(two(c, 14) == two(s@, 14));
        assert(two(c, 17) == two(s@, 17));
    }
    if !(1 <= m && m <= 12) {
        proof {
            assert(!valid_remote(c));
        }
        return None;
    }
    if !(1 <= d && d <= month_days(y, m)) {
        proof {
            assert(!valid_remote(c));
        }
        return None;
    }
    if !(h < 24 && mi < 60 && sec < 60) {
        proof {
            assert(!valid_remote(c));
        }
        return None;
    }
    let off_part = s.substring_char(23, 28);
    proof {
        assert(off_part@ =~= c.subrange(23, 28));
    }
    let osecs = match parse_offset(off_part) {
        Some(v) => v,
        None => {
            proof {
                assert(!valid_remote(c));
            }
            return None;
        },
    };
    let days = civil_day_number(y, m, d);
    let e: i64 = ((days as i64) - 719528) * 86400 + (h as i64) * 3600 + (mi as i64) * 60 + (
    sec as i64) - osecs;
    proof {
        assert(epoch_day() == 719528);
        assert(valid_remote(c));
        assert(e == remote_epoch(c));
    }
    Some(e)
}

/// Renders a valid compact timestamp as the upload representation, with
/// milliseconds fixed to `.000` and the offset appended.
pub fn format_started(s: &str, off: &str) -> (r: String)
    requires
        valid_compact(s@),
        valid_offset(off@),
    ensures
        r@ == started_repr(s@, off@),
{
    let mut out = String::new();
    out.append(s.substring_char(0, 4));
    out.append("-");
    out.append(s.substring_char(4, 6));
    out.append("-");
    out.append(s.substring_char(6, 8));
    out.append("T");
    out.append(s.substring_char(9, 11));
    out.append(":");
    out.append(s.substring_char(11, 13));
    out.append(":");
    out.append(s.substring_char(13, 15));
    out.append(".000");
    out.append(off);
    proof {
        reveal_strlit("-");
        reveal_strlit("T");
        reveal_strlit(":");
        reveal_strlit(".000");
        assert(out@ =~= started_repr(s@, off@));
    }
    out
}

/// The upload representation of a valid compact timestamp parses back,
/// after millisecond correction, to the very instant the compact
/// timestamp denotes: what this run uploads, a later run recognizes as
/// the same instant.
pub proof fn lemma_started_round_trip(s: Seq<char>, o: Seq<char>)
    requires
        valid_compact(s),
        valid_offset(o),
    ensures
        spec_remote_instant(started_repr(s, o)) == Some(compact_instant(s, o)),
{
    let rep = started_repr(s, o);
    assert(rep.len() == 28);
    assert(corrected(rep) =~= rep);
    let c = corrected(rep);
    assert(four(c, 0) == four(s, 0));
    assert(two(c, 5) == two(s, 4));
    assert(two(c, 8) == two(s, 6));
    assert(two(c, 11) == two(s, 9));
    assert(two(c, 14) == two(s, 11));
    assert(two(c, 17) == two(s, 13));
    assert(c.subrange(23, 28) =~= o);
    assert(valid_remote(c));
    assert(remote_epoch(c) == compact_instant(s, o));
}

/// Two tracker start strings that differ only in their millisecond digits
/// denote the same corrected instant.
pub proof fn lemma_millis_ignored(s1: Seq<char>, s2: Seq<char>)
    requires
        s1.len() == s2.len(),
        forall|l: int| 0 <= l < s1.len() && !(20 <= l < 23) ==> s1[l] == s2[l],
    ensures
        spec_remote_instant(s1) == spec_remote_instant(s2),
{
    if s1.len() >= 23 {
        assert(corrected(s1) =~= corrected(s2));
    } else {
        assert(corrected(s1) == s1 && corrected(s2) == s2);
        assert(!valid_remote(corrected(s1)));
        assert(!valid_remote(corrected(s2)));
    }
}

/// Two well-formed corrected start strings that agree everywhere but in
/// their seconds digits denote distinct instants: a one-second difference
/// is never treated as the same instant.
pub proof fn lemma_second_difference_distinct(c1: Seq<char>, c2: Seq<char>)
    requires
        valid_remote(c1),
        valid_remote(c2),
        forall|l: int| 0 <= l < 28 && !(17 <= l < 19) ==> c1[l] == c2[l],
        two(c1, 17) != two(c2, 17),
    ensures
        remote_epoch(c1) != remote_epoch(c2),
{
    assert(four(c1, 0) == four(c2, 0));
    assert(two(c1, 5) == two(c2, 5));
    assert(two(c1, 8) == two(c2, 8));
    assert(two(c1, 11) == two(c2, 11));
    assert(two(c1, 14) == two(c2, 14));
    assert(c1.subrange(23, 28) =~= c2.subrange(23, 28));
}

} // verus!
