//! Scalar field parsers for the feed tables: unsigned numbers, clock
//! values, `yyyymmdd` dates and decimal coordinates, each as a spec-level
//! grammar with an executable scanner proved against it.

use vstd::prelude::*;

verus! {

/// Copies a byte string.
pub fn copy_bytes(v: &Vec<u8>) -> (r: Vec<u8>)
    ensures
        r@ == v@,
{
    let mut r: Vec<u8> = Vec::new();
    let n = v.len();
    let mut i: usize = 0;
    while i < n
        invariant
            n == v@.len(),
            i <= n,
            r@ == v@.take(i as int),
        decreases n - i,
    {
        r.push(v[i]);
        proof {
            assert(v@.take(i + 1) =~= v@.take(i as int).push(v@[i as int]));
        }
        i += 1;
    }
    proof {
        assert(v@.take(n as int) =~= v@);
    }
    r
}

pub open spec fn is_digit(b: u8) -> bool {
    48 <= b <= 57
}

/// Reads the digits of `t` from `i` on into a value built left to right;
/// any non-digit byte spoils the whole number.
pub open spec fn uint_scan(t: Seq<u8>, i: int, val: int) -> Option<int>
    decreases t.len() - i,
    when 0 <= i <= t.len()
{
    if i >= t.len() {
        Some(val)
    } else if is_digit(t[i]) {
        uint_scan(t, i + 1, val * 10 + (t[i] - 48))
    } else {
        None
    }
}

/// `s` without one leading ASCII plus sign, which a number may carry.
pub open spec fn strip_plus(s: Seq<u8>) -> Seq<u8> {
    if s.len() > 0 && s[0] == 43 {
        s.drop_first()
    } else {
        s
    }
}

/// The numeric value of an unsigned decimal numeral: an optional plus
/// sign, then one or more digits.
pub open spec fn spec_parse_uint(s: Seq<u8>) -> Option<int> {
    let t = strip_plus(s);
    if t.len() == 0 {
        None
    } else {
        uint_scan(t, 0, 0)
    }
}

/// A scanned value never shrinks as more digits arrive.
proof fn lemma_uint_scan_grows(t: Seq<u8>, i: int, val: int)
    requires
        0 <= i <= t.len(),
        val >= 0,
        uint_scan(t, i, val) is Some,
    ensures
        uint_scan(t, i, val)->Some_0 >= val,
    decreases t.len() - i,
{
    if i < t.len() && is_digit(t[i]) {
        lemma_uint_scan_grows(t, i + 1, val * 10 + (t[i] - 48));
    }
}

/// The numeral's value where it fits `u32`.
pub open spec fn spec_parse_u32(s: Seq<u8>) -> Option<u32> {
    let v = spec_parse_uint(s);
    if v is Some && v->Some_0 <= u32::MAX {
        Some(v->Some_0 as u32)
    } else {
        None
    }
}

/// The numeral's value where it fits `u64`.
pub open spec fn spec_parse_u64(s: Seq<u8>) -> Option<u64> {
    let v = spec_parse_uint(s);
    if v is Some && v->Some_0 <= u64::MAX {
        Some(v->Some_0 as u64)
    } else {
        None
    }
}

/// A parsed numeral is never negative.
pub proof fn lemma_parse_uint_nonneg(s: Seq<u8>)
    ensures
        spec_parse_uint(s) is Some ==> spec_parse_uint(s)->Some_0 >= 0,
{
    if spec_parse_uint(s) is Some {
        lemma_uint_scan_grows(strip_plus(s), 0, 0);
    }
}

/// Parses an unsigned number that must fit `u32`.
pub fn parse_u32(s: &Vec<u8>) -> (r: Option<u32>)
    ensures
        r == spec_parse_u32(s@),
{
    proof {
        lemma_parse_uint_nonneg(s@);
    }
    match parse_u64(s) {
        Some(v) => {
            if v <= 0xffff_ffff {
                Some(v as u32)
            } else {
                None
            }
        },
        None => None,
    }
}

/// Parses an unsigned number that must fit `u64`.
pub fn parse_u64(s: &Vec<u8>) -> (r: Option<u64>)
    ensures
        r == spec_parse_u64(s@),
{
    let n = s.len();
    let mut i: usize = 0;
    if n > 0 && s[0] == 43 {
        i = 1;
    }
    let ghost t = strip_plus(s@);
    let ghost start = i as int;
    proof {
        assert(t =~= s@.skip(start));
    }
    if i >= n {
        return None;
    }
    let mut val: u64 = 0;
    let ghost mut val_g: int = 0;
    let mut too_big = false;
    while i < n
        invariant
            n == s@.len(),
            start <= i as int <= n,
            t == s@.skip(start),
            t == strip_plus(s@),
            t.len() == n - start,
            forall|j: int| start <= j < n ==> t[j - start] == s@[j],
            t.len() > 0,
            val_g >= 0,
            uint_scan(t, 0, 0) == uint_scan(t, i - start, val_g),
            !too_big ==> val_g == val && val_g <= u64::MAX,
            too_big ==> val_g > u64::MAX,
        decreases n - i,
    {
        let c = s[i];
        proof {
            assert(t[i - start] == c);
        }
        if c < 48 || c > 57 {
            proof {
                assert(!is_digit(t[i - start]));
                assert(uint_scan(t, i - start, val_g) is None);
                assert(spec_parse_uint(s@) is None);
            }
            return None;
        }
        let d = (c - 48) as u64;
        proof {
            assert(uint_scan(t, i - start, val_g) == uint_scan(
                t,
                i - start + 1,
                val_g * 10 + (c - 48),
            ));
        }
        if too_big {
            proof {
                val_g = val_g * 10 + (c - 48) as int;
            }
        } else {
            if val > 0xffff_ffff_ffff_ffffu64 / 10 {
                too_big = true;
                proof {
                    val_g = val_g * 10 + (c - 48) as int;
                    assert(val_g > u64::MAX);
                }
            } else {
                let p = val * 10;
                if d > 0xffff_ffff_ffff_ffffu64 - p {
                    too_big = true;
                    proof {
                        val_g = val_g * 10 + (c - 48) as int;
                        assert(val_g > u64::MAX);
                    }
                } else {
                    val = p + d;
                    proof {
                        val_g = val_g * 10 + (c - 48) as int;
                    }
                }
            }
        }
        i += 1;
    }
    proof {
        assert(uint_scan(t, t.len() as int, val_g) == Some(val_g));
    }
    if too_big {
        None
    } else {
        Some(val)
    }
}

pub open spec fn is_ascii_space(b: u8) -> bool {
    b == 9 || b == 10 || b == 11 || b == 12 || b == 13 || b == 32
}

pub open spec fn trim_start(s: Seq<u8>) -> Seq<u8>
    decreases s.len(),
{
    if s.len() > 0 && is_ascii_space(s[0]) {
        trim_start(s.drop_first())
    } else {
        s
    }
}

pub open spec fn trim_end(s: Seq<u8>) -> Seq<u8>
    decreases s.len(),
{
    if s.len() > 0 && is_ascii_space(s.last()) {
        trim_end(s.drop_last())
    } else {
        s
    }
}

/// `s` without leading and trailing ASCII whitespace.
pub open spec fn spec_trim(s: Seq<u8>) -> Seq<u8> {
    trim_end(trim_start(s))
}

/// Trims ASCII whitespace from both ends of a byte string.
pub fn trim_bytes(s: &Vec<u8>) -> (r: Vec<u8>)
    ensures
        r@ == spec_trim(s@),
{
    let n = s.len();
    let mut a: usize = 0;
    proof {
        assert(s@.skip(0) =~= s@);
    }
    while a < n && (s[a] == 9 || s[a] == 10 || s[a] == 11 || s[a] == 12 || s[a] == 13 || s[a]
        == 32)
        invariant
            n == s@.len(),
            a <= n,
            trim_start(s@) == trim_start(s@.skip(a as int)),
        decreases n - a,
    {
        proof {
            assert(s@.skip(a as int).drop_first() =~= s@.skip(a + 1));
        }
        a += 1;
    }
    proof {
        if a < n {
            assert(!is_ascii_space(s@.skip(a as int)[0]));
        }
        assert(trim_start(s@) == s@.skip(a as int));
    }
    let mut b: usize = n;
    proof {
        assert(s@.skip(a as int).take(n - a) =~= s@.skip(a as int));
    }
    while b > a && (s[b - 1] == 9 || s[b - 1] == 10 || s[b - 1] == 11 || s[b - 1] == 12 || s[b - 1]
        == 13 || s[b - 1] == 32)
        invariant
            a <= b <= n,
            n == s@.len(),
            trim_start(s@) == s@.skip(a as int),
            trim_end(s@.skip(a as int)) == trim_end(s@.skip(a as int).take(b - a)),
        decreases b,
    {
        proof {
            let cur = s@.skip(a as int).take(b - a);
            assert(cur.last() == s@[b - 1]);
            assert(cur.drop_last() =~= s@.skip(a as int).take(b - 1 - a));
        }
        b -= 1;
    }
    proof {
        let cur = s@.skip(a as int).take(b - a);
        if b > a {
            assert(cur.last() == s@[b - 1]);
            assert(!is_ascii_space(cur.last()));
        }
        assert(trim_end(s@.skip(a as int)) == cur);
    }
    let mut r: Vec<u8> = Vec::new();
    let mut i: usize = a;
    while i < b
        invariant
            a <= i <= b <= n,
            n == s@.len(),
            r@ == s@.subrange(a as int, i as int),
        decreases b - i,
    {
        r.push(s[i]);
        proof {
            assert(s@.subrange(a as int, i + 1) =~= s@.subrange(a as int, i as int).push(
                s@[i as int],
            ));
        }
        i += 1;
    }
    proof {
        assert(r@ =~= s@.skip(a as int).take(b - a));
    }
    r
}

/// Splits `s` from byte `i` on at ASCII colons, given the bytes of the
/// current part and the parts already complete.
pub open spec fn colon_scan(s: Seq<u8>, i: int, cur: Seq<u8>, out: Seq<Seq<u8>>) -> Seq<Seq<u8>>
    decreases s.len() - i,
    when 0 <= i <= s.len()
{
    if i >= s.len() {
        out.push(cur)
    } else if s[i] == 58 {
        colon_scan(s, i + 1, Seq::empty(), out.push(cur))
    } else {
        colon_scan(s, i + 1, cur.push(s[i]), out)
    }
}

/// The colon-separated parts of a byte string; the empty string has one
/// empty part.
pub open spec fn spec_split_colon(s: Seq<u8>) -> Seq<Seq<u8>> {
    colon_scan(s, 0, Seq::empty(), Seq::empty())
}

/// Splits a byte string at ASCII colons.
pub fn split_colon(s: &Vec<u8>) -> (r: Vec<Vec<u8>>)
    ensures
        crate::csv::fields_view(r@) == spec_split_colon(s@),
{
    let n = s.len();
    let mut i: usize = 0;
    let mut cur: Vec<u8> = Vec::new();
    let mut out: Vec<Vec<u8>> = Vec::new();
    proof {
        assert(crate::csv::fields_view(out@) =~= Seq::<Seq<u8>>::empty());
    }
    while i < n
        invariant
            n == s@.len(),
            i <= n,
            spec_split_colon(s@) == colon_scan(
                s@,
                i as int,
                cur@,
                crate::csv::fields_view(out@),
            ),
        decreases n - i,
    {
        let ghost c0 = cur@;
        let ghost o0 = crate::csv::fields_view(out@);
        let c = s[i];
        if c == 58 {
            let done = cur;
            cur = Vec::new();
            proof {
                assert(crate::csv::fields_view(out@.push(done)) =~= crate::csv::fields_view(
                    out@,
                ).push(done@));
            }
            out.push(done);
            proof {
                assert(colon_scan(s@, i as int, c0, o0) == colon_scan(
                    s@,
                    i + 1,
                    Seq::empty(),
                    o0.push(c0),
                ));
            }
        } else {
            cur.push(c);
            proof {
                assert(colon_scan(s@, i as int, c0, o0) == colon_scan(s@, i + 1, c0.push(c), o0));
            }
        }
        i += 1;
    }
    proof {
        assert(colon_scan(s@, n as int, cur@, crate::csv::fields_view(out@))
            == crate::csv::fields_view(out@).push(cur@));
        assert(crate::csv::fields_view(out@.push(cur)) =~= crate::csv::fields_view(out@).push(
            cur@,
        ));
    }
    out.push(cur);
    out
}

/// The clock value of a stop_times field: the whole field is trimmed of
/// ASCII whitespace and read as colon-separated hours, minutes and
/// seconds, each an unsigned number; parts beyond the third are ignored.
pub open spec fn spec_parse_time(field: Seq<u8>) -> Option<crate::model::TimeOffset> {
    let parts = spec_split_colon(spec_trim(field));
    if parts.len() < 3 {
        None
    } else {
        match (spec_parse_u32(parts[0]), spec_parse_u32(parts[1]), spec_parse_u32(parts[2])) {
            (Some(h), Some(m), Some(s)) => Some(
                crate::model::TimeOffset { hours: h, minutes: m, seconds: s },
            ),
            _ => None,
        }
    }
}

/// Parses a clock field into a `TimeOffset`.
pub fn parse_time(field: &Vec<u8>) -> (r: Option<crate::model::TimeOffset>)
    ensures
        r == spec_parse_time(field@),
{
    let trimmed = trim_bytes(field);
    let parts = split_colon(&trimmed);
    if parts.len() < 3 {
        return None;
    }
    proof {
        assert(crate::csv::fields_view(parts@)[0] == parts@[0]@);
        assert(crate::csv::fields_view(parts@)[1] == parts@[1]@);
        assert(crate::csv::fields_view(parts@)[2] == parts@[2]@);
    }
    let h = parse_u32(&parts[0]);
    let m = parse_u32(&parts[1]);
    let s = parse_u32(&parts[2]);
    match (h, m, s) {
        (Some(hours), Some(minutes), Some(seconds)) => Some(
            crate::model::TimeOffset { hours, minutes, seconds },
        ),
        _ => None,
    }
}

pub open spec fn is_leap_year(y: int) -> bool {
    y % 4 == 0 && (y % 100 != 0 || y % 400 == 0)
}

/// How many days the month has, honouring leap years.
pub open spec fn days_in_month(y: int, m: int) -> int {
    if m == 2 {
        if is_leap_year(y) {
            29
        } else {
            28
        }
    } else if m == 4 || m == 6 || m == 9 || m == 11 {
        30
    } else {
        31
    }
}

/// The date of a calendar field: exactly eight digits `yyyymmdd` naming a
/// real calendar day, packed into the number `yyyy * 10000 + mm * 100 + dd`,
/// whose integer order is date order.
pub open spec fn spec_parse_date(s: Seq<u8>) -> Option<u32> {
    if s.len() == 8 && (forall|i: int| 0 <= i < 8 ==> is_digit(#[trigger] s[i])) {
        let y = uint_scan(s.take(4), 0, 0);
        let m = uint_scan(s.subrange(4, 6), 0, 0);
        let d = uint_scan(s.subrange(6, 8), 0, 0);
        if y is Some && m is Some && d is Some {
            let yv = y->Some_0;
            let mv = m->Some_0;
            let dv = d->Some_0;
            if 1 <= mv <= 12 && 1 <= dv <= days_in_month(yv, mv) {
                Some((yv * 10000 + mv * 100 + dv) as u32)
            } else {
                None
            }
        } else {
            None
        }
    } else {
        None
    }
}

/// Parses a `yyyymmdd` calendar field.
pub fn parse_date(s: &Vec<u8>) -> (r: Option<u32>)
    ensures
        r == spec_parse_date(s@),
{
    if s.len() != 8 {
        return None;
    }
    let mut i: usize = 0;
    while i < 8
        invariant
            s@.len() == 8,
            i <= 8,
            forall|j: int| 0 <= j < i ==> is_digit(#[trigger] s@[j]),
        decreases 8 - i,
    {
        if s[i] < 48 || s[i] > 57 {
            return None;
        }
        i += 1;
    }
    let y = (s[0] - 48) as u32 * 1000 + (s[1] - 48) as u32 * 100 + (s[2] - 48) as u32 * 10 + (s[3]
        - 48) as u32;
    let m = (s[4] - 48) as u32 * 10 + (s[5] - 48) as u32;
    let d = (s[6] - 48) as u32 * 10 + (s[7] - 48) as u32;
    proof {
        let t = s@;
        assert(uint_scan(t.take(4), 0, 0) == Some(y as int)) by {
            let p = t.take(4);
            assert(p[0] == t[0] && p[1] == t[1] && p[2] == t[2] && p[3] == t[3]);
            assert(uint_scan(p, 0, 0) == uint_scan(p, 1, (p[0] - 48) as int));
            assert(uint_scan(p, 1, (p[0] - 48) as int) == uint_scan(
                p,
                2,
                (p[0] - 48) * 10 + (p[1] - 48),
            ));
            assert(uint_scan(p, 2, (p[0] - 48) * 10 + (p[1] - 48)) == uint_scan(
                p,
                3,
                ((p[0] - 48) * 10 + (p[1] - 48)) * 10 + (p[2] - 48),
            ));
            assert(uint_scan(p, 3, ((p[0] - 48) * 10 + (p[1] - 48)) * 10 + (p[2] - 48))
                == uint_scan(
                p,
                4,
                (((p[0] - 48) * 10 + (p[1] - 48)) * 10 + (p[2] - 48)) * 10 + (p[3] - 48),
            ));
        }
        assert(uint_scan(t.subrange(4, 6), 0, 0) == Some(m as int)) by {
            let p = t.subrange(4, 6);
            assert(p[0] == t[4] && p[1] == t[5]);
            assert(uint_scan(p, 0, 0) == uint_scan(p, 1, (p[0] - 48) as int));
            assert(uint_scan(p, 1, (p[0] - 48) as int) == uint_scan(
                p,
                2,
                (p[0] - 48) * 10 + (p[1] - 48),
            ));
        }
        assert(uint_scan(t.subrange(6, 8), 0, 0) == Some(d as int)) by {
            let p = t.subrange(6, 8);
            assert(p[0] == t[6] && p[1] == t[7]);
            assert(uint_scan(p, 0, 0) == uint_scan(p, 1, (p[0] - 48) as int));
            assert(uint_scan(p, 1, (p[0] - 48) as int) == uint_scan(
                p,
                2,
                (p[0] - 48) * 10 + (p[1] - 48),
            ));
        }
    }
    if m < 1 || m > 12 {
        return None;
    }
    let leap = (y % 4 == 0) && (y % 100 != 0 || y % 400 == 0);
    let dim: u32 = if m == 2 {
        if leap {
            29
        } else {
            28
        }
    } else if m == 4 || m == 6 || m == 9 || m == 11 {
        30
    } else {
        31
    };
    if d < 1 || d > dim {
        return None;
    }
    Some(y * 10000 + m * 100 + d)
}

/// Whether the sign-stripped remainder of a coordinate reads as digits
/// with at most one dot and at least one digit in all.
pub open spec fn dec_scan(t: Seq<u8>, i: int, seen_dot: bool, seen_digit: bool) -> bool
    decreases t.len() - i,
    when 0 <= i <= t.len()
{
    if i >= t.len() {
        seen_digit
    } else if is_digit(t[i]) {
        dec_scan(t, i + 1, seen_dot, true)
    } else if t[i] == 46 && !seen_dot {
        dec_scan(t, i + 1, true, seen_digit)
    } else {
        false
    }
}

/// `s` without one leading ASCII plus or minus sign.
pub open spec fn strip_sign(s: Seq<u8>) -> Seq<u8> {
    if s.len() > 0 && (s[0] == 43 || s[0] == 45) {
        s.drop_first()
    } else {
        s
    }
}

/// The coordinate grammar: an optional sign, then digits with at most one
/// decimal dot somewhere among them, and at least one digit.
pub open spec fn is_decimal(s: Seq<u8>) -> bool {
    dec_scan(strip_sign(s), 0, false, false)
}

/// Checks a coordinate field against the decimal grammar.
pub fn check_decimal(s: &Vec<u8>) -> (r: bool)
    ensures
        r == is_decimal(s@),
{
    let n = s.len();
    let mut i: usize = 0;
    if n > 0 && (s[0] == 43 || s[0] == 45) {
        i = 1;
    }
    let ghost t = strip_sign(s@);
    let ghost start = i as int;
    proof {
        assert(t =~= s@.skip(start));
    }
    let mut seen_dot = false;
    let mut seen_digit = false;
    while i < n
        invariant
            n == s@.len(),
            start <= i as int <= n,
            t == s@.skip(start),
            t.len() == n - start,
            forall|j: int| start <= j < n ==> t[j - start] == s@[j],
            is_decimal(s@) == dec_scan(t, i - start, seen_dot, seen_digit),
        decreases n - i,
    {
        let c = s[i];
        proof {
            assert(t[i - start] == c);
        }
        if c >= 48 && c <= 57 {
            seen_digit = true;
        } else if c == 46 && !seen_dot {
            seen_dot = true;
        } else {
            return false;
        }
        i += 1;
    }
    seen_digit
}

} // verus!

