//! The progress state machine: it learns the media length once, then turns
//! each progress line into a percentage and a remaining-time estimate.
use vstd::prelude::*;
use crate::duration::Duration;
use crate::extract::{
    ProgressInfo, parse_progress, parse_total_duration, spec_current_time, spec_speed_label,
    spec_total_duration,
};

verus! {

/// Percentages are counted in thousandths of a percent: this is 100%.
pub const PERCENT_SCALE: u64 = 100_000;

/// Thousandths of a percent in one whole percent.
pub const PER_PERCENT: u64 = 1_000;

/// Before this much wall time (in milliseconds) the rate is not trusted and
/// the whole media length is given as the time remaining.
pub const CALIBRATION_MILLIS: u64 = 1_000;

/// The whole-percent mark before any report.
pub const NO_PERCENT_YET: i128 = -1;

/// How far `current` is through `total`, in thousandths of a percent: exactly
/// 100% when they are equal, else the quotient rounded down.
pub open spec fn spec_percentage(current: Duration, total: Duration) -> nat {
    if current == total {
        PERCENT_SCALE as nat
    } else {
        current.spec_nanos() * PERCENT_SCALE as nat / total.spec_nanos()
    }
}

/// The estimated time left, in milliseconds, at `percent` after
/// `elapsed_millis` of wall time.
pub open spec fn spec_remaining_millis(percent: nat, total: Duration, elapsed_millis: nat) -> nat {
    if elapsed_millis < CALIBRATION_MILLIS {
        total.spec_millis()
    } else if 0 < percent < PERCENT_SCALE {
        (PERCENT_SCALE - percent) as nat * elapsed_millis / percent
    } else if percent == PERCENT_SCALE {
        0
    } else {
        total.spec_millis()
    }
}

/// The total after a line has been seen: the first declaration is kept.
pub open spec fn spec_next_total(total: Option<Duration>, line: Seq<u8>) -> Option<Duration> {
    if total is None {
        spec_total_duration(line)
    } else {
        total
    }
}

/// What the tracker reports for one progress line.
pub struct ProgressSnapshot {
    /// Thousandths of a percent.
    pub percent: u128,
    pub current_time: Duration,
    pub total: Duration,
    pub speed_str: Vec<u8>,
    pub elapsed_millis: u64,
    pub remaining_millis: u128,
    /// The whole percent differs from that of the previous report.
    pub percent_changed: bool,
}

impl ProgressSnapshot {
    /// The percentage in whole percents, rounded down.
    pub fn percent_floor(&self) -> (r: u128)
        ensures
            r == self.percent as nat / PER_PERCENT as nat,
    {
        self.percent / (PER_PERCENT as u128)
    }

    /// The percentage in tenths of a percent, rounded to the nearest tenth
    /// (halves up).
    pub fn percent_tenths(&self) -> (r: u128)
        ensures
            r == (self.percent as nat + 50) / 100,
    {
        let up: u128 = if self.percent % 100 >= 50 {
            1
        } else {
            0
        };
        self.percent / 100 + up
    }

    /// Nothing is left to do: shown as completed rather than as a time left.
    pub fn is_completed(&self) -> (r: bool)
        ensures
            r == (self.remaining_millis == 0),
    {
        self.remaining_millis == 0
    }
}

/// How far `current` is through `total`, as `spec_percentage` says.
pub fn percentage(current: &Duration, total: &Duration) -> (r: u128)
    requires
        current.wf(),
        total.wf(),
        total.spec_nanos() > 0,
    ensures
        r == spec_percentage(*current, *total),
        *current == *total ==> r == PERCENT_SCALE,
{
    if *current == *total {
        PERCENT_SCALE as u128
    } else {
        let c = current.as_nanos();
        assert(c * 100_000 <= 0xffff_ffff_ffff_ffff_ffff_ffff_ffff_ffffu128) by (nonlinear_arith)
            requires
                c <= 0xffff_ffff_ffff_ffffu128 * 1_000_000_000 + 1_000_000_000,
        ;
        c * (PERCENT_SCALE as u128) / total.as_nanos()
    }
}

/// The time left, in milliseconds, as `spec_remaining_millis` says.
pub fn estimate_remaining(percent: u128, total: &Duration, elapsed_millis: u64) -> (r: u128)
    requires
        total.wf(),
    ensures
        r == spec_remaining_millis(percent as nat, *total, elapsed_millis as nat),
{
    if elapsed_millis < CALIBRATION_MILLIS {
        total.as_millis()
    } else if 0 < percent && percent < PERCENT_SCALE as u128 {
        let left = (PERCENT_SCALE as u128) - percent;
        let e = elapsed_millis as u128;
        assert(left * e <= 100_000u128 * 0xffff_ffff_ffff_ffffu128) by (nonlinear_arith)
            requires
                left <= 100_000,
                e <= 0xffff_ffff_ffff_ffffu128,
        ;
        left * e / percent
    } else if percent == PERCENT_SCALE as u128 {
        0
    } else {
        total.as_millis()
    }
}

/// What one call of `ProgressTracker::update` does: `before` and `after` are
/// the tracker around the call, `r` its result.
pub open spec fn update_post(
    before: ProgressTracker,
    after: ProgressTracker,
    line: Seq<u8>,
    elapsed_millis: u64,
    r: Option<ProgressSnapshot>,
) -> bool {
    &&& after.total_duration == spec_next_total(before.total_duration, line)
    &&& before.total_duration is Some ==> after.total_duration == before.total_duration
    &&& r is Some <==> (after.total_duration is Some && spec_current_time(line) is Some)
    &&& r is None ==> after.last_percent_floor == before.last_percent_floor
    &&& r matches Some(s) ==> {
        let total = after.total_duration->Some_0;
        let current = spec_current_time(line)->Some_0;
        &&& s.total == total
        &&& s.current_time == current
        &&& s.percent == spec_percentage(current, total)
        &&& s.speed_str@ == spec_speed_label(line)
        &&& s.elapsed_millis == elapsed_millis
        &&& s.remaining_millis == spec_remaining_millis(
            s.percent as nat,
            total,
            elapsed_millis as nat,
        )
        &&& after.last_percent_floor == s.percent as nat / PER_PERCENT as nat
        &&& s.percent_changed == (after.last_percent_floor != before.last_percent_floor)
    }
}

/// Follows one encoder run: the total length once it is known, and the whole
/// percent last reported.
pub struct ProgressTracker {
    pub total_duration: Option<Duration>,
    pub last_percent_floor: i128,
}

impl ProgressTracker {
    /// A known total is a well-formed, nonzero span.
    pub open spec fn wf(self) -> bool {
        self.total_duration matches Some(t) ==> t.wf() && t.spec_nanos() > 0
    }

    /// A tracker that knows no total yet.
    pub fn new() -> (r: ProgressTracker)
        ensures
            r.wf(),
            r.total_duration is None,
            r.last_percent_floor == NO_PERCENT_YET,
    {
        ProgressTracker { total_duration: None, last_percent_floor: NO_PERCENT_YET }
    }

    /// Whether the total length has been seen.
    pub fn has_total(&self) -> (r: bool)
        ensures
            r == self.total_duration is Some,
    {
        self.total_duration.is_some()
    }

    /// Takes one diagnostic line seen `elapsed_millis` after the run began.
    /// The first line that declares a total sets it for good; once it is
    /// known, each line with a position gives a snapshot. Other lines change
    /// nothing and give `None`.
    pub fn update(&mut self, line: &[u8], elapsed_millis: u64) -> (r: Option<ProgressSnapshot>)
        requires
            old(self).wf(),
        ensures
            final(self).wf(),
            update_post(*old(self), *final(self), line@, elapsed_millis, r),
    {
        if self.total_duration.is_none() {
            self.total_duration = parse_total_duration(line);
        }
        let total = match self.total_duration {
            Some(t) => t,
            None => return None,
        };
        let info: ProgressInfo = match parse_progress(line) {
            Some(p) => p,
            None => return None,
        };
        let percent = percentage(&info.current_time, &total);
        let remaining = estimate_remaining(percent, &total, elapsed_millis);
        let floor = percent / (PER_PERCENT as u128);
        assert(floor <= 0xffff_ffff_ffff_ffff_ffff_ffff_ffff_ffffu128 / 1000);
        let floor = floor as i128;
        let changed = floor != self.last_percent_floor;
        self.last_percent_floor = floor;
        Some(
            ProgressSnapshot {
                percent,
                current_time: info.current_time,
                total,
                speed_str: info.speed_str,
                elapsed_millis,
                remaining_millis: remaining,
                percent_changed: changed,
            },
        )
    }
}

/// For a fixed total, a later position never gives a smaller percentage.
pub proof fn lemma_percentage_monotonic(c1: Duration, c2: Duration, total: Duration)
    requires
        total.spec_nanos() > 0,
        c1.spec_nanos() <= c2.spec_nanos(),
    ensures
        spec_percentage(c1, total) <= spec_percentage(c2, total),
{
    let t = total.spec_nanos();
    let s = PERCENT_SCALE as nat;
    let n1 = c1.spec_nanos();
    let n2 = c2.spec_nanos();
    assert(n1 * s <= n2 * s) by (nonlinear_arith)
        requires
            n1 <= n2,
    ;
    assert((t * s) / t == s) by (nonlinear_arith)
        requires
            t > 0,
    ;
    if c1 == total && c2 != total {
        assert(t * s <= n2 * s) by (nonlinear_arith)
            requires
                t <= n2,
        ;
        vstd::arithmetic::div_mod::lemma_div_is_ordered((t * s) as int, (n2 * s) as int, t as int);
    } else if c2 == total && c1 != total {
        assert(n1 * s <= t * s) by (nonlinear_arith)
            requires
                n1 <= t,
        ;
        vstd::arithmetic::div_mod::lemma_div_is_ordered((n1 * s) as int, (t * s) as int, t as int);
    } else {
        vstd::arithmetic::div_mod::lemma_div_is_ordered((n1 * s) as int, (n2 * s) as int, t as int);
    }
}

/// At the very end of the media the percentage is exactly 100%.
pub proof fn lemma_percentage_at_total(total: Duration)
    requires
        total.wf(),
        total.spec_nanos() > 0,
    ensures
        spec_percentage(total, total) == PERCENT_SCALE,
{
}

/// Within one run, of two consecutive snapshots the later never shows a
/// smaller percentage when its position is not earlier.
pub proof fn lemma_consecutive_snapshots_monotonic(
    t0: ProgressTracker,
    t1: ProgressTracker,
    t2: ProgressTracker,
    line1: Seq<u8>,
    line2: Seq<u8>,
    elapsed1: u64,
    elapsed2: u64,
    s1: ProgressSnapshot,
    s2: ProgressSnapshot,
)
    requires
        t0.wf(),
        update_post(t0, t1, line1, elapsed1, Some(s1)),
        update_post(t1, t2, line2, elapsed2, Some(s2)),
        s1.current_time.spec_nanos() <= s2.current_time.spec_nanos(),
    ensures
        s1.total == s2.total,
        s1.percent <= s2.percent,
{
    lemma_percentage_monotonic(s1.current_time, s2.current_time, s1.total);
}

} // verus!
