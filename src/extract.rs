//! Reading the declared media length and the current position out of single
//! diagnostic lines.
use vstd::prelude::*;
use crate::duration::{Duration, is_digit, parse_time_in, spec_parse_time};
use crate::scan::{find_in, first_occurrence, is_first_occurrence, occurs_at};

verus! {

/// `Duration: ` announces the length of the media.
pub open spec fn duration_marker() -> Seq<u8> {
    seq![68u8, 117, 114, 97, 116, 105, 111, 110, 58, 32]
}

/// `time=` announces the position reached.
pub open spec fn time_marker() -> Seq<u8> {
    seq![116u8, 105, 109, 101, 61]
}

/// `speed=` announces the encoding speed.
pub open spec fn speed_marker() -> Seq<u8> {
    seq![115u8, 112, 101, 101, 100, 61]
}

pub open spec fn comma() -> Seq<u8> {
    seq![44u8]
}

pub open spec fn letter_x() -> Seq<u8> {
    seq![120u8]
}

/// The speed label shown when a line gives none: `0.0x`, padded to the
/// minimum width.
pub open spec fn placeholder_speed() -> Seq<u8> {
    seq![48u8, 46, 48, 120, 32, 32, 32]
}

/// The narrowest speed label; shorter ones are padded with spaces.
pub const SPEED_LABEL_WIDTH: usize = 7;

/// The bytes that stand for whitespace characters (each byte read as the
/// character of the same number).
pub open spec fn is_space(b: u8) -> bool {
    b == 32 || (9 <= b <= 13) || b == 0x85 || b == 0xa0
}

/// `s` without its leading whitespace.
pub open spec fn trim_start(s: Seq<u8>) -> Seq<u8>
    decreases s.len(),
{
    if s.len() > 0 && is_space(s[0]) {
        trim_start(s.drop_first())
    } else {
        s
    }
}

/// `s`, padded on the right with spaces to `SPEED_LABEL_WIDTH` bytes.
pub open spec fn pad_label(s: Seq<u8>) -> Seq<u8> {
    if s.len() < SPEED_LABEL_WIDTH {
        s + Seq::new((SPEED_LABEL_WIDTH - s.len()) as nat, |i: int| 32u8)
    } else {
        s
    }
}

/// The total length that `line` declares: the token between `Duration: ` and
/// the next comma. A line without them, with a token that does not parse, or
/// with a zero length declares none.
pub open spec fn spec_total_duration(line: Seq<u8>) -> Option<Duration> {
    let a = first_occurrence(line, duration_marker());
    let rest = line.subrange(a + duration_marker().len(), line.len() as int);
    let c = first_occurrence(rest, comma());
    if a < 0 || c < 0 {
        None
    } else {
        match spec_parse_time(rest.subrange(0, c)) {
            Some(d) => if d.spec_nanos() > 0 {
                Some(d)
            } else {
                None
            },
            None => None,
        }
    }
}

/// `i` is the leftmost position of a whitespace byte in `s`.
pub open spec fn is_first_space(s: Seq<u8>, i: int) -> bool {
    0 <= i < s.len() && is_space(s[i]) && forall|k: int| 0 <= k < i ==> !is_space(s[k])
}

/// The leftmost position of a whitespace byte in `s`, or `-1` when there is none.
pub open spec fn first_space(s: Seq<u8>) -> int {
    if exists|i: int| is_first_space(s, i) {
        choose|i: int| is_first_space(s, i)
    } else {
        -1
    }
}

/// The position that `line` reports: the token between `time=` and the next
/// whitespace byte.
pub open spec fn spec_current_time(line: Seq<u8>) -> Option<Duration> {
    let a = first_occurrence(line, time_marker());
    let rest = line.subrange(a + time_marker().len(), line.len() as int);
    let c = first_space(rest);
    if a < 0 || c < 0 {
        None
    } else {
        spec_parse_time(rest.subrange(0, c))
    }
}

/// The number of decimal points in `s`.
pub open spec fn count_points(s: Seq<u8>) -> nat
    decreases s.len(),
{
    if s.len() == 0 {
        0
    } else {
        count_points(s.drop_last()) + if s.last() == 46 {
            1nat
        } else {
            0nat
        }
    }
}

/// The number of decimal digits in `s`.
pub open spec fn count_digits(s: Seq<u8>) -> nat
    decreases s.len(),
{
    if s.len() == 0 {
        0
    } else {
        count_digits(s.drop_last()) + if is_digit(s.last()) {
            1nat
        } else {
            0nat
        }
    }
}

/// `s` writes a decimal number: digits, at least one, with at most one point.
pub open spec fn is_decimal(s: Seq<u8>) -> bool {
    &&& forall|i: int| 0 <= i < s.len() ==> is_digit(#[trigger] s[i]) || s[i] == 46
    &&& count_points(s) <= 1
    &&& count_digits(s) >= 1
}

/// The speed label of `line`: the number that follows `speed=`, without
/// leading whitespace, with the `x` that ends it, padded to the minimum
/// width. The placeholder when there is no `speed=`, no `x` after it, or the
/// text before the `x` is not a decimal number.
pub open spec fn spec_speed_label(line: Seq<u8>) -> Seq<u8> {
    let a = first_occurrence(line, speed_marker());
    let rest = line.subrange(a + speed_marker().len(), line.len() as int);
    let x = first_occurrence(rest, letter_x());
    let number = trim_start(rest.subrange(0, x));
    if a < 0 || x < 0 || !is_decimal(number) {
        placeholder_speed()
    } else {
        pad_label(number.push(120u8))
    }
}

/// One progress report: the position reached and the speed label.
pub struct ProgressInfo {
    pub current_time: Duration,
    pub speed_str: Vec<u8>,
}

/// The total length that the diagnostic line declares, as `spec_total_duration` says.
pub fn parse_total_duration(line: &[u8]) -> (r: Option<Duration>)
    ensures
        r == spec_total_duration(line@),
        r matches Some(d) ==> d.wf() && d.spec_nanos() > 0,
{
    let marker: [u8; 10] = [68u8, 117, 114, 97, 116, 105, 111, 110, 58, 32];
    let comma_mark: [u8; 1] = [44u8];
    assert(marker@ =~= duration_marker());
    assert(comma_mark@ =~= comma());
    assert(line@.subrange(0, line@.len() as int) =~= line@);
    let a = match find_in(line, marker.as_slice(), 0, line.len()) {
        Some(a) => a,
        None => return None,
    };
    let start = a + 10;
    assert(line@.subrange(start as int, line@.len() as int) =~= line@.subrange(
        a + duration_marker().len(),
        line@.len() as int,
    ));
    let c = match find_in(line, comma_mark.as_slice(), start, line.len()) {
        Some(c) => c,
        None => return None,
    };
    let ghost rest = line@.subrange(start as int, line@.len() as int);
    assert(rest.subrange(0, c - start) =~= line@.subrange(start as int, c as int));
    match parse_time_in(line, start, c) {
        Some(d) => {
            if d.secs == 0 && d.nanos == 0 {
                None
            } else {
                Some(d)
            }
        },
        None => None,
    }
}

/// Strips the leading whitespace of `s[lo..hi]`; the new start is returned.
fn skip_spaces(s: &[u8], lo: usize, hi: usize) -> (r: usize)
    requires
        lo <= hi <= s@.len(),
    ensures
        lo <= r <= hi,
        s@.subrange(r as int, hi as int) == trim_start(s@.subrange(lo as int, hi as int)),
{
    let mut i: usize = lo;
    while i < hi && (s[i] == 32 || (9 <= s[i] && s[i] <= 13) || s[i] == 0x85 || s[i] == 0xa0)
        invariant
            lo <= i <= hi <= s@.len(),
            trim_start(s@.subrange(i as int, hi as int)) == trim_start(
                s@.subrange(lo as int, hi as int),
            ),
        decreases hi - i,
    {
        assert(s@.subrange(i as int, hi as int).drop_first() =~= s@.subrange(i + 1, hi as int));
        i = i + 1;
    }
    if i < hi {
        assert(s@.subrange(i as int, hi as int)[0] == s@[i as int]);
    }
    i
}

/// The leftmost whitespace byte within `s[lo..hi]`, counted from the start of `s`.
fn find_space_in(s: &[u8], lo: usize, hi: usize) -> (r: Option<usize>)
    requires
        lo <= hi <= s@.len(),
    ensures
        match r {
            Some(i) => lo <= i && i - lo == first_space(s@.subrange(lo as int, hi as int)),
            None => first_space(s@.subrange(lo as int, hi as int)) == -1,
        },
{
    let ghost sub = s@.subrange(lo as int, hi as int);
    let mut i: usize = lo;
    while i < hi
        invariant
            lo <= i <= hi <= s@.len(),
            sub == s@.subrange(lo as int, hi as int),
            forall|k: int| 0 <= k < i - lo ==> !is_space(sub[k]),
        decreases hi - i,
    {
        let b = s[i];
        if b == 32 || (9 <= b && b <= 13) || b == 0x85 || b == 0xa0 {
            let ghost j = i - lo;
            assert(sub[j] == b);
            assert(is_first_space(sub, j));
            let ghost w = choose|w: int| is_first_space(sub, w);
            assert(w == j) by {
                if w < j {
                    assert(!is_space(sub[w]));
                } else if w > j {
                    assert(!is_space(sub[j]));
                }
            }
            return Some(i);
        }
        assert(sub[i - lo] == b);
        i = i + 1;
    }
    assert(!exists|w: int| is_first_space(sub, w));
    None
}

/// Whether `s[lo..hi]` writes a decimal number, as `is_decimal` says.
fn check_decimal(s: &[u8], lo: usize, hi: usize) -> (r: bool)
    requires
        lo <= hi <= s@.len(),
    ensures
        r == is_decimal(s@.subrange(lo as int, hi as int)),
{
    let ghost full = s@.subrange(lo as int, hi as int);
    let mut points: usize = 0;
    let mut digits: usize = 0;
    let mut i: usize = lo;
    while i < hi
        invariant
            lo <= i <= hi <= s@.len(),
            full == s@.subrange(lo as int, hi as int),
            forall|k: int| lo <= k < i ==> is_digit(#[trigger] s@[k]) || s@[k] == 46,
            points == count_points(s@.subrange(lo as int, i as int)),
            digits == count_digits(s@.subrange(lo as int, i as int)),
            points <= 1,
            digits <= i - lo,
        decreases hi - i,
    {
        let b = s[i];
        assert(full[i - lo] == b);
        assert(s@.subrange(lo as int, i + 1).drop_last() =~= s@.subrange(lo as int, i as int));
        if 48 <= b && b <= 57 {
            digits = digits + 1;
        } else if b == 46 {
            if points == 1 {
                proof {
                    assert(full.subrange(0, i - lo + 1) =~= s@.subrange(lo as int, i + 1));
                    lemma_count_points_prefix(full, i - lo + 1);
                }
                return false;
            }
            points = points + 1;
        } else {
            return false;
        }
        i = i + 1;
    }
    assert(s@.subrange(lo as int, i as int) =~= full);
    assert forall|k: int| 0 <= k < full.len() implies is_digit(#[trigger] full[k]) || full[k]
        == 46 by {
        assert(full[k] == s@[lo + k]);
    }
    digits >= 1
}

proof fn lemma_count_points_prefix(s: Seq<u8>, k: int)
    requires
        0 <= k <= s.len(),
    ensures
        count_points(s.subrange(0, k)) <= count_points(s),
    decreases s.len(),
{
    if k < s.len() {
        assert(s.drop_last().subrange(0, k) =~= s.subrange(0, k));
        lemma_count_points_prefix(s.drop_last(), k);
    } else {
        assert(s.subrange(0, k) =~= s);
    }
}

/// The speed label of the line, as `spec_speed_label` says.
fn speed_label(line: &[u8]) -> (r: Vec<u8>)
    ensures
        r@ == spec_speed_label(line@),
{
    let marker: [u8; 6] = [115u8, 112, 101, 101, 100, 61];
    let x_mark: [u8; 1] = [120u8];
    assert(marker@ =~= speed_marker());
    assert(x_mark@ =~= letter_x());
    assert(line@.subrange(0, line@.len() as int) =~= line@);
    let found = match find_in(line, marker.as_slice(), 0, line.len()) {
        Some(a) => {
            let start = a + 6;
            assert(line@.subrange(start as int, line@.len() as int) =~= line@.subrange(
                a + speed_marker().len(),
                line@.len() as int,
            ));
            match find_in(line, x_mark.as_slice(), start, line.len()) {
                Some(x) => {
                    let ghost rest = line@.subrange(start as int, line@.len() as int);
                    assert(rest.subrange(0, x - start) =~= line@.subrange(start as int, x as int));
                    Some((start, x))
                },
                None => None,
            }
        },
        None => None,
    };
    match found {
        None => {
            let r = vec![48u8, 46, 48, 120, 32, 32, 32];
            assert(r@ =~= placeholder_speed());
            r
        },
        Some((start, x)) => {
            let from = skip_spaces(line, start, x);
            if !check_decimal(line, from, x) {
                let r = vec![48u8, 46, 48, 120, 32, 32, 32];
                assert(r@ =~= placeholder_speed());
                return r;
            }
            let end = x + 1;
            assert(line@.subrange(from as int, end as int) =~= line@.subrange(
                from as int,
                x as int,
            ).push(120u8));
            let mut r: Vec<u8> = Vec::new();
            let mut i: usize = from;
            while i < end
                invariant
                    from <= i <= end <= line@.len(),
                    r@ == line@.subrange(from as int, i as int),
                decreases end - i,
            {
                r.push(line[i]);
                assert(r@ =~= line@.subrange(from as int, i + 1));
                i = i + 1;
            }
            let ghost trimmed = r@;
            while r.len() < SPEED_LABEL_WIDTH
                invariant
                    trimmed.len() <= r@.len(),
                    r@.subrange(0, trimmed.len() as int) == trimmed,
                    forall|k: int| trimmed.len() <= k < r@.len() ==> r@[k] == 32u8,
                    trimmed.len() < SPEED_LABEL_WIDTH ==> r@.len() <= SPEED_LABEL_WIDTH,
                    trimmed.len() >= SPEED_LABEL_WIDTH ==> r@ == trimmed,
                decreases SPEED_LABEL_WIDTH - r@.len(),
            {
                r.push(32u8);
            }
            assert(r@ =~= pad_label(trimmed));
            r
        },
    }
}

/// The progress that the diagnostic line reports: `None` without a position;
/// the placeholder speed label when the line gives no well-formed speed.
pub fn parse_progress(line: &[u8]) -> (r: Option<ProgressInfo>)
    ensures
        match r {
            Some(p) => spec_current_time(line@) == Some(p.current_time) && p.current_time.wf()
                && p.speed_str@ == spec_speed_label(line@),
            None => spec_current_time(line@) is None,
        },
{
    let marker: [u8; 5] = [116u8, 105, 109, 101, 61];
    assert(marker@ =~= time_marker());
    assert(line@.subrange(0, line@.len() as int) =~= line@);
    let a = match find_in(line, marker.as_slice(), 0, line.len()) {
        Some(a) => a,
        None => return None,
    };
    let start = a + 5;
    assert(line@.subrange(start as int, line@.len() as int) =~= line@.subrange(
        a + time_marker().len(),
        line@.len() as int,
    ));
    let c = match find_space_in(line, start, line.len()) {
        Some(c) => c,
        None => return None,
    };
    let ghost rest = line@.subrange(start as int, line@.len() as int);
    assert(rest.subrange(0, c - start) =~= line@.subrange(start as int, c as int));
    match parse_time_in(line, start, c) {
        Some(current_time) => Some(ProgressInfo { current_time, speed_str: speed_label(line) }),
        None => None,
    }
}

/// A line in which `Duration: ` does not stand declares no total length.
pub proof fn lemma_no_marker_no_total(line: Seq<u8>)
    requires
        forall|k: int| !occurs_at(line, duration_marker(), k),
    ensures
        spec_total_duration(line) is None,
{
    assert(!exists|k: int| is_first_occurrence(line, duration_marker(), k));
}

/// A line in which `speed=` does not stand gets the placeholder speed label.
pub proof fn lemma_no_speed_placeholder(line: Seq<u8>)
    requires
        forall|k: int| !occurs_at(line, speed_marker(), k),
    ensures
        spec_speed_label(line) == placeholder_speed(),
{
    assert(!exists|k: int| is_first_occurrence(line, speed_marker(), k));
}

} // verus!
