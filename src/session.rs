//! One encoder run seen from its diagnostic stream: bytes go in one at a
//! time, progress snapshots come out, and the exit of the process closes it
//! with a summary. Reading the stream and the clock is the caller's part.
use vstd::prelude::*;
use crate::duration::Duration;
use crate::lines::{LineSplitter, spec_push_byte};
use crate::outcome::{EncodingOutcome, spec_summary_secs};
use crate::tracker::{ProgressSnapshot, ProgressTracker, update_post};

verus! {

pub struct EncoderSession {
    pub splitter: LineSplitter,
    pub tracker: ProgressTracker,
}

impl EncoderSession {
    pub open spec fn wf(self) -> bool {
        self.tracker.wf()
    }

    /// A session that has seen no byte.
    pub fn new() -> (r: EncoderSession)
        ensures
            r.wf(),
            r.splitter.buffer@ == Seq::<u8>::empty(),
            r.tracker.total_duration is None,
            r.tracker.last_percent_floor == crate::tracker::NO_PERCENT_YET,
    {
        EncoderSession { splitter: LineSplitter::new(), tracker: ProgressTracker::new() }
    }

    /// Takes one byte of the diagnostic stream, read `elapsed_millis` after
    /// the run began. A byte that ends a line hands that line to the tracker;
    /// any other byte changes the tracker in nothing.
    pub fn feed_byte(&mut self, b: u8, elapsed_millis: u64) -> (r: Option<ProgressSnapshot>)
        requires
            old(self).wf(),
        ensures
            final(self).wf(),
            final(self).splitter.buffer@ == spec_push_byte(old(self).splitter.buffer@, b).0,
            match spec_push_byte(old(self).splitter.buffer@, b).1 {
                Some(line) => update_post(
                    old(self).tracker,
                    final(self).tracker,
                    line,
                    elapsed_millis,
                    r,
                ),
                None => r is None && final(self).tracker == old(self).tracker,
            },
    {
        match self.splitter.push_byte(b) {
            Some(line) => self.tracker.update(line.as_slice(), elapsed_millis),
            None => None,
        }
    }

    /// The summary once the encoder has exited, `elapsed_millis` after the
    /// run began, with success or not.
    pub fn finish(&self, succeeded: bool, elapsed_millis: u64) -> (r: EncodingOutcome)
        requires
            self.wf(),
        ensures
            r.wf(),
            r.succeeded == succeeded,
            r.total_duration == self.tracker.total_duration,
            r.elapsed_secs == spec_summary_secs(elapsed_millis as nat),
    {
        let total: Option<Duration> = self.tracker.total_duration;
        EncodingOutcome::new(succeeded, total, elapsed_millis)
    }
}

} // verus!
