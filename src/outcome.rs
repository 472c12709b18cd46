//! The summary of one encoder run, made once the process has exited.
use vstd::prelude::*;
use crate::duration::{Duration, NANOS_PER_SEC};
use crate::tracker::PERCENT_SCALE;

verus! {

/// The wall seconds of a run as the summary shows them: never zero, so that
/// a speed can be computed.
pub open spec fn spec_summary_secs(elapsed_millis: nat) -> nat {
    if elapsed_millis / 1000 == 0 {
        1
    } else {
        elapsed_millis / 1000
    }
}

/// The overall speed, media length over wall time, in tenths, rounded to the
/// nearest tenth (halves up).
pub open spec fn spec_speed_tenths(total: Duration, secs: nat) -> nat {
    let e = secs * NANOS_PER_SEC as nat;
    (total.spec_nanos() * 20 + e) / (2 * e)
}

/// How one encoder run ended.
pub struct EncodingOutcome {
    /// The encoder exited with success.
    pub succeeded: bool,
    /// The media length, when the encoder declared one.
    pub total_duration: Option<Duration>,
    /// Wall seconds of the run, at least one.
    pub elapsed_secs: u64,
}

impl EncodingOutcome {
    pub open spec fn wf(self) -> bool {
        &&& self.elapsed_secs >= 1
        &&& self.total_duration matches Some(t) ==> t.wf()
    }

    /// Summarises a run that took `elapsed_millis` of wall time.
    pub fn new(succeeded: bool, total_duration: Option<Duration>, elapsed_millis: u64) -> (r:
        EncodingOutcome)
        requires
            total_duration matches Some(t) ==> t.wf(),
        ensures
            r.wf(),
            r.succeeded == succeeded,
            r.total_duration == total_duration,
            r.elapsed_secs == spec_summary_secs(elapsed_millis as nat),
    {
        let secs = elapsed_millis / 1000;
        let secs = if secs == 0 {
            1
        } else {
            secs
        };
        EncodingOutcome { succeeded, total_duration, elapsed_secs: secs }
    }

    /// The percentage the summary shows: a run that succeeded is complete,
    /// whatever position the encoder last reported.
    pub fn final_percent(&self) -> (r: Option<u64>)
        ensures
            r == (if self.succeeded {
                Some(PERCENT_SCALE)
            } else {
                None
            }),
    {
        if self.succeeded {
            Some(PERCENT_SCALE)
        } else {
            None
        }
    }

    /// The overall speed in tenths, as `spec_speed_tenths` says; `None`
    /// when no media length was declared.
    pub fn speed_tenths(&self) -> (r: Option<u128>)
        requires
            self.wf(),
        ensures
            r == (match self.total_duration {
                Some(t) => Some(spec_speed_tenths(t, self.elapsed_secs as nat) as u128),
                None => None,
            }),
    {
        match self.total_duration {
            None => None,
            Some(t) => {
                let e = (self.elapsed_secs as u128) * (NANOS_PER_SEC as u128);
                let n = t.as_nanos();
                assert(n * 20 + e <= 0xffff_ffff_ffff_ffff_ffff_ffff_ffff_ffffu128) by (
                nonlinear_arith)
                    requires
                        n <= 0xffff_ffff_ffff_ffffu128 * 1_000_000_000 + 1_000_000_000,
                        e <= 0xffff_ffff_ffff_ffffu128 * 1_000_000_000,
                ;
                assert(e >= 1_000_000_000) by (nonlinear_arith)
                    requires
                        e == self.elapsed_secs as u128 * 1_000_000_000,
                        self.elapsed_secs >= 1,
                ;
                Some((n * 20 + e) / (2 * e))
            },
        }
    }
}

} // verus!
