//! Time spans, the "H:MM:SS.fraction" tokens that declare them, and their
//! clock-style display.
use vstd::prelude::*;
use crate::scan::{find_in, first_occurrence};
use crate::seconds::{parse_seconds_in, spec_seconds};

verus! {

pub const NANOS_PER_SEC: u32 = 1_000_000_000;

pub const NANOS_PER_MILLI: u32 = 1_000_000;

/// A nonnegative time span with nanosecond resolution.
#[derive(Clone, Copy, Debug, PartialEq, Eq, Structural)]
pub struct Duration {
    pub secs: u64,
    /// Always below one second.
    pub nanos: u32,
}

impl Duration {
    pub open spec fn wf(self) -> bool {
        self.nanos < NANOS_PER_SEC
    }

    /// The span in nanoseconds.
    pub open spec fn spec_nanos(self) -> nat {
        self.secs as nat * NANOS_PER_SEC as nat + self.nanos as nat
    }

    pub open spec fn spec_millis(self) -> nat {
        self.spec_nanos() / NANOS_PER_MILLI as nat
    }

    pub fn new(secs: u64, nanos: u32) -> (r: Duration)
        requires
            nanos < NANOS_PER_SEC,
        ensures
            r.wf(),
            r.secs == secs,
            r.nanos == nanos,
    {
        Duration { secs, nanos }
    }

    pub fn from_secs(secs: u64) -> (r: Duration)
        ensures
            r.wf(),
            r.spec_nanos() == secs as nat * NANOS_PER_SEC as nat,
    {
        Duration { secs, nanos: 0 }
    }

    pub fn from_millis(millis: u64) -> (r: Duration)
        ensures
            r.wf(),
            r.spec_nanos() == millis as nat * NANOS_PER_MILLI as nat,
    {
        let secs = millis / 1000;
        let rest = millis % 1000;
        let nanos = (rest as u32) * NANOS_PER_MILLI;
        assert(millis == secs * 1000 + rest);
        Duration { secs, nanos }
    }

    pub fn as_secs(&self) -> (r: u64)
        ensures
            r == self.secs,
    {
        self.secs
    }

    pub fn subsec_nanos(&self) -> (r: u32)
        ensures
            r == self.nanos,
    {
        self.nanos
    }

    /// The whole span in nanoseconds.
    pub fn as_nanos(&self) -> (r: u128)
        ensures
            r == self.spec_nanos(),
    {
        let s = self.secs as u128;
        assert(s * 1_000_000_000 <= 0xffff_ffff_ffff_ffffu128 * 1_000_000_000) by (nonlinear_arith)
            requires
                s <= 0xffff_ffff_ffff_ffffu128,
        ;
        s * (NANOS_PER_SEC as u128) + (self.nanos as u128)
    }

    /// The span in whole milliseconds, rounded down.
    pub fn as_millis(&self) -> (r: u128)
        ensures
            r == self.spec_millis(),
    {
        self.as_nanos() / (NANOS_PER_MILLI as u128)
    }
}

// ---------------------------------------------------------------------------
// Parsing

pub open spec fn is_digit(b: u8) -> bool {
    48 <= b <= 57
}

pub open spec fn all_digits(s: Seq<u8>) -> bool {
    forall|i: int| 0 <= i < s.len() ==> is_digit(#[trigger] s[i])
}

/// The number that the decimal digits `s` write.
pub open spec fn digits_value(s: Seq<u8>) -> nat
    decreases s.len(),
{
    if s.len() == 0 {
        0
    } else {
        digits_value(s.drop_last()) * 10 + (s.last() - 48) as nat
    }
}

pub open spec fn colon() -> Seq<u8> {
    seq![58u8]
}

pub open spec fn dot() -> Seq<u8> {
    seq![46u8]
}

/// The three colon-separated fields of `t`, when it has exactly two colons.
pub open spec fn time_fields(t: Seq<u8>) -> Option<(Seq<u8>, Seq<u8>, Seq<u8>)> {
    let c1 = first_occurrence(t, colon());
    let rest = t.subrange(c1 + 1, t.len() as int);
    let c2 = first_occurrence(rest, colon());
    let tail = rest.subrange(c2 + 1, rest.len() as int);
    if c1 < 0 || c2 < 0 || first_occurrence(tail, colon()) >= 0 {
        None
    } else {
        Some((t.subrange(0, c1), rest.subrange(0, c2), tail))
    }
}

/// The part of a seconds field before its decimal point.
pub open spec fn seconds_whole_part(s: Seq<u8>) -> Seq<u8> {
    let d = first_occurrence(s, dot());
    if d < 0 {
        s
    } else {
        s.subrange(0, d)
    }
}

/// The part of a seconds field after its decimal point.
pub open spec fn seconds_frac_part(s: Seq<u8>) -> Seq<u8> {
    let d = first_occurrence(s, dot());
    if d < 0 {
        Seq::empty()
    } else {
        s.subrange(d + 1, s.len() as int)
    }
}

/// A seconds field: digits with an optional decimal point, at least one digit.
pub open spec fn seconds_well_formed(s: Seq<u8>) -> bool {
    let w = seconds_whole_part(s);
    let f = seconds_frac_part(s);
    all_digits(w) && all_digits(f) && w.len() + f.len() > 0
}

/// An unsigned integer field: an optional `+`, then at least one digit, as
/// `u64::from_str` reads it.
pub open spec fn integer_well_formed(s: Seq<u8>) -> bool {
    integer_digits(s).len() > 0 && all_digits(integer_digits(s))
}

/// The digits of an integer field, its `+` left out.
pub open spec fn integer_digits(s: Seq<u8>) -> Seq<u8> {
    if s.len() > 0 && s[0] == 43 {
        s.drop_first()
    } else {
        s
    }
}

pub open spec fn integer_value(s: Seq<u8>) -> nat {
    digits_value(integer_digits(s))
}

/// The whole seconds that an "H:MM:SS.fraction" token with these fields declares.
pub open spec fn fields_seconds(h: Seq<u8>, m: Seq<u8>, s: Seq<u8>) -> nat {
    integer_value(h) * 3600 + integer_value(m) * 60 + spec_seconds(s)->Some_0.0
}

/// What an "H:MM:SS.fraction" token declares: hours and minutes are unsigned
/// integers, seconds a nonnegative decimal number (see `spec_seconds`).
/// `None` for a token of another shape, or one whose whole seconds do not fit
/// in a `u64`.
pub open spec fn spec_parse_time(t: Seq<u8>) -> Option<Duration> {
    match time_fields(t) {
        None => None,
        Some((h, m, s)) => {
            if integer_well_formed(h) && integer_well_formed(m) && spec_seconds(s) is Some
                && fields_seconds(h, m, s) <= u64::MAX {
                Some(
                    Duration {
                        secs: fields_seconds(h, m, s) as u64,
                        nanos: spec_seconds(s)->Some_0.1 as u32,
                    },
                )
            } else {
                None
            }
        },
    }
}

pub open spec fn pow10(k: nat) -> nat
    decreases k,
{
    if k == 0 {
        1
    } else {
        10 * pow10((k - 1) as nat)
    }
}

/// The value of the decimal digits `s[lo..hi]`, or `None` when one of them is
/// not a digit or the value does not fit in a `u64`.
fn parse_digits(s: &[u8], lo: usize, hi: usize) -> (r: Option<u64>)
    requires
        lo <= hi <= s@.len(),
    ensures
        match r {
            Some(v) => all_digits(s@.subrange(lo as int, hi as int)) && v == digits_value(
                s@.subrange(lo as int, hi as int),
            ),
            None => !all_digits(s@.subrange(lo as int, hi as int)) || digits_value(
                s@.subrange(lo as int, hi as int),
            ) > u64::MAX,
        },
{
    let ghost full = s@.subrange(lo as int, hi as int);
    let mut v: u64 = 0;
    let mut i: usize = lo;
    let mut overflow = false;
    while i < hi
        invariant
            lo <= i <= hi <= s@.len(),
            full == s@.subrange(lo as int, hi as int),
            all_digits(s@.subrange(lo as int, i as int)),
            !overflow ==> v == digits_value(s@.subrange(lo as int, i as int)),
            overflow ==> digits_value(s@.subrange(lo as int, i as int)) > u64::MAX,
        decreases hi - i,
    {
        let b = s[i];
        if b < 48 || b > 57 {
            assert(full[i - lo] == b);
            return None;
        }
        let ghost prev = s@.subrange(lo as int, i as int);
        let ghost next = s@.subrange(lo as int, i + 1);
        assert(next.drop_last() =~= prev);
        assert(all_digits(next)) by {
            assert forall|j: int| 0 <= j < next.len() implies is_digit(#[trigger] next[j]) by {
                if j < prev.len() {
                    assert(next[j] == prev[j]);
                }
            }
        }
        if !overflow {
            let d = (b - 48) as u64;
            if v > (u64::MAX - d) / 10 {
                overflow = true;
            } else {
                v = v * 10 + d;
            }
        }
        i = i + 1;
    }
    if overflow {
        assert(s@.subrange(lo as int, i as int) =~= full);
        return None;
    }
    assert(s@.subrange(lo as int, i as int) =~= full);
    Some(v)
}

/// Whether every byte of `s[lo..hi]` is a decimal digit.
pub(crate) fn check_digits(s: &[u8], lo: usize, hi: usize) -> (r: bool)
    requires
        lo <= hi <= s@.len(),
    ensures
        r == all_digits(s@.subrange(lo as int, hi as int)),
{
    let ghost full = s@.subrange(lo as int, hi as int);
    let mut i: usize = lo;
    while i < hi
        invariant
            lo <= i <= hi <= s@.len(),
            full == s@.subrange(lo as int, hi as int),
            forall|j: int| lo <= j < i ==> is_digit(#[trigger] s@[j]),
        decreases hi - i,
    {
        if s[i] < 48 || s[i] > 57 {
            assert(full[i - lo] == s@[i as int]);
            return false;
        }
        i = i + 1;
    }
    assert forall|j: int| 0 <= j < full.len() implies is_digit(#[trigger] full[j]) by {
        assert(full[j] == s@[lo + j]);
    }
    true
}

/// What the token `s[lo..hi]` declares, as `spec_parse_time` says.
pub fn parse_time_in(s: &[u8], lo: usize, hi: usize) -> (r: Option<Duration>)
    requires
        lo <= hi <= s@.len(),
    ensures
        r == spec_parse_time(s@.subrange(lo as int, hi as int)),
        r matches Some(d) ==> d.wf(),
{
    let ghost t = s@.subrange(lo as int, hi as int);
    let colon_mark: [u8; 1] = [58u8];
    let dot_mark: [u8; 1] = [46u8];
    assert(colon_mark@ =~= colon());
    assert(dot_mark@ =~= dot());
    let i = match find_in(s, colon_mark.as_slice(), lo, hi) {
        Some(i) => i,
        None => return None,
    };
    let ghost rest = t.subrange(i - lo + 1, t.len() as int);
    assert(rest =~= s@.subrange(i + 1, hi as int));
    let j = match find_in(s, colon_mark.as_slice(), i + 1, hi) {
        Some(j) => j,
        None => return None,
    };
    let ghost tail = rest.subrange(j - i, rest.len() as int);
    assert(tail =~= s@.subrange(j + 1, hi as int));
    if find_in(s, colon_mark.as_slice(), j + 1, hi).is_some() {
        return None;
    }
    assert(t.subrange(0, i - lo) =~= s@.subrange(lo as int, i as int));
    assert(rest.subrange(0, j - i - 1) =~= s@.subrange(i + 1, j as int));
    let ghost h = s@.subrange(lo as int, i as int);
    let ghost m = s@.subrange(i + 1, j as int);
    assert(time_fields(t) == Some((h, m, tail)));
    let hours = match parse_integer(s, lo, i) {
        Some(v) => v,
        None => return None,
    };
    let minutes = match parse_integer(s, i + 1, j) {
        Some(v) => v,
        None => return None,
    };
    let (whole, nanos) = match parse_seconds_in(s, j + 1, hi) {
        Some(p) => p,
        None => return None,
    };
    if hours > (u64::MAX - whole) / 3600 {
        return None;
    }
    let hs = hours * 3600 + whole;
    if minutes > (u64::MAX - hs) / 60 {
        return None;
    }
    let secs = hs + minutes * 60;
    Some(Duration { secs, nanos })
}

/// The integer field `s[lo..hi]`, or `None` when it is malformed or its value
/// does not fit in a `u64`.
fn parse_integer(s: &[u8], lo: usize, hi: usize) -> (r: Option<u64>)
    requires
        lo <= hi <= s@.len(),
    ensures
        match r {
            Some(v) => integer_well_formed(s@.subrange(lo as int, hi as int)) && v == integer_value(
                s@.subrange(lo as int, hi as int),
            ),
            None => !integer_well_formed(s@.subrange(lo as int, hi as int)) || integer_value(
                s@.subrange(lo as int, hi as int),
            ) > u64::MAX,
        },
{
    let ghost f = s@.subrange(lo as int, hi as int);
    let start = if lo < hi && s[lo] == 43 {
        assert(f[0] == s@[lo as int]);
        lo + 1
    } else {
        if lo < hi {
            assert(f[0] == s@[lo as int]);
        }
        lo
    };
    assert(integer_digits(f) =~= s@.subrange(start as int, hi as int));
    if start == hi {
        return None;
    }
    parse_digits(s, start, hi)
}

/// Parses an "H:MM:SS.fraction" token, as `spec_parse_time` says: hours and
/// minutes are unsigned integers, seconds a nonnegative decimal number with
/// an optional exponent. Any other shape, or whole seconds beyond a `u64`,
/// gives `None`.
pub fn parse_time_to_duration(token: &[u8]) -> (r: Option<Duration>)
    ensures
        r == spec_parse_time(token@),
        r matches Some(d) ==> d.wf(),
{
    assert(token@.subrange(0, token@.len() as int) =~= token@);
    parse_time_in(token, 0, token.len())
}

// ---------------------------------------------------------------------------
// Display

/// Relies on `String::push`: the character is appended at the end.
pub assume_specification[ String::push ](s: &mut String, ch: char)
    ensures
        final(s)@ == old(s)@.push(ch),
;

pub open spec fn digit_char(d: nat) -> char {
    ((d + 48) as u8) as char
}

/// The decimal digits of `n`, without leading zeros.
pub open spec fn decimal_text(n: nat) -> Seq<char>
    decreases n,
{
    if n < 10 {
        seq![digit_char(n)]
    } else {
        decimal_text(n / 10).push(digit_char(n % 10))
    }
}

/// `n` in decimal, padded with a zero to at least two digits.
pub open spec fn two_digit_text(n: nat) -> Seq<char> {
    if n < 10 {
        seq!['0'] + decimal_text(n)
    } else {
        decimal_text(n)
    }
}

/// "HH:MM:SS" for these hours, minutes and seconds.
pub open spec fn clock_text(h: nat, m: nat, s: nat) -> Seq<char> {
    two_digit_text(h) + seq![':'] + two_digit_text(m) + seq![':'] + two_digit_text(s)
}

/// The whole seconds of `d` on a clock: hours, then minutes and seconds below 60.
pub open spec fn spec_format_duration(d: Duration) -> Seq<char> {
    let t = d.secs as nat;
    clock_text(t / 3600, (t % 3600) / 60, t % 60)
}

fn push_decimal(out: &mut String, n: u64)
    ensures
        final(out)@ == old(out)@ + decimal_text(n as nat),
    decreases n,
{
    if n >= 10 {
        push_decimal(out, n / 10);
    }
    let d = (n % 10) as u8;
    out.push((d + 48) as char);
    assert(final(out)@ =~= old(out)@ + decimal_text(n as nat));
}

fn push_two_digits(out: &mut String, n: u64)
    ensures
        final(out)@ == old(out)@ + two_digit_text(n as nat),
{
    if n < 10 {
        out.push('0');
    }
    push_decimal(out, n);
    assert(final(out)@ =~= old(out)@ + two_digit_text(n as nat));
}

/// The whole seconds of `duration` as "HH:MM:SS"; the fraction is dropped and
/// the hours take more digits when they pass 99.
pub fn format_duration(duration: &Duration) -> (r: String)
    ensures
        r@ == spec_format_duration(*duration),
{
    let total = duration.secs;
    let mut out = String::new();
    push_two_digits(&mut out, total / 3600);
    out.push(':');
    push_two_digits(&mut out, (total % 3600) / 60);
    out.push(':');
    push_two_digits(&mut out, total % 60);
    assert(out@ =~= spec_format_duration(*duration));
    out
}

proof fn lemma_clock_split(hh: nat, mm: nat, ss: nat)
    requires
        mm < 60,
        ss < 60,
    ensures
        (hh * 3600 + mm * 60 + ss) / 3600 == hh,
        ((hh * 3600 + mm * 60 + ss) % 3600) / 60 == mm,
        (hh * 3600 + mm * 60 + ss) % 60 == ss,
{
    assert((hh * 3600 + mm * 60 + ss) / 3600 == hh) by (nonlinear_arith)
        requires
            mm < 60,
            ss < 60,
    ;
    assert((hh * 3600 + mm * 60 + ss) % 3600 == mm * 60 + ss) by (nonlinear_arith)
        requires
            mm < 60,
            ss < 60,
    ;
    assert((hh * 3600 + mm * 60 + ss) % 60 == ss) by (nonlinear_arith)
        requires
            ss < 60,
    ;
}

/// Parsing then formatting keeps the hours, minutes and whole seconds of a
/// token whose minutes and seconds are clock values (below 60); the fraction
/// is dropped.
pub proof fn lemma_parse_format_round_trip(t: Seq<u8>, h: Seq<u8>, m: Seq<u8>, s: Seq<u8>)
    requires
        spec_parse_time(t) is Some,
        time_fields(t) == Some((h, m, s)),
        integer_value(m) < 60,
        spec_seconds(s)->Some_0.0 < 60,
    ensures
        spec_format_duration(spec_parse_time(t)->Some_0) == clock_text(
            integer_value(h),
            integer_value(m),
            spec_seconds(s)->Some_0.0,
        ),
{
    lemma_clock_split(integer_value(h), integer_value(m), spec_seconds(s)->Some_0.0);
}

} // verus!
