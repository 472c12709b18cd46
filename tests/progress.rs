use ffmpeg_convert::duration::{format_duration, parse_time_to_duration, Duration};
use ffmpeg_convert::extract::{parse_progress, parse_total_duration};
use ffmpeg_convert::lines::{split_lines, LineSplitter};
use ffmpeg_convert::outcome::EncodingOutcome;
use ffmpeg_convert::session::EncoderSession;
use ffmpeg_convert::tracker::{
    estimate_remaining, percentage, ProgressTracker, NO_PERCENT_YET, PERCENT_SCALE,
};

fn secs(s: u64) -> Duration {
    Duration::new(s, 0)
}

#[test]
fn time_parser_reads_hours_minutes_seconds_and_fraction() {
    let d = parse_time_to_duration(b"01:02:03.50").unwrap();
    assert_eq!(d, Duration::new(3723, 500_000_000));
}

#[test]
fn time_parser_truncates_fraction_past_nine_digits() {
    let d = parse_time_to_duration(b"0:00:01.1234567899").unwrap();
    assert_eq!(d, Duration::new(1, 123_456_789));
}

#[test]
fn time_parser_accepts_whole_seconds_and_bare_points() {
    assert_eq!(parse_time_to_duration(b"0:0:7"), Some(secs(7)));
    assert_eq!(parse_time_to_duration(b"0:0:7."), Some(secs(7)));
    assert_eq!(parse_time_to_duration(b"0:0:.25"), Some(Duration::new(0, 250_000_000)));
    assert_eq!(parse_time_to_duration(b"2:75:90"), Some(secs(2 * 3600 + 75 * 60 + 90)));
}

#[test]
fn time_parser_rejects_other_shapes() {
    assert_eq!(parse_time_to_duration(b""), None);
    assert_eq!(parse_time_to_duration(b"00:05"), None);
    assert_eq!(parse_time_to_duration(b"0:0:0:0"), None);
    assert_eq!(parse_time_to_duration(b"a:00:05"), None);
    assert_eq!(parse_time_to_duration(b"0::05"), None);
    assert_eq!(parse_time_to_duration(b"0:00:."), None);
    assert_eq!(parse_time_to_duration(b"0:00:1.2.3"), None);
    assert_eq!(parse_time_to_duration(b"N/A"), None);
    assert_eq!(parse_time_to_duration(b"99999999999999999999:00:00"), None);
}

#[test]
fn format_round_trips_clock_fields() {
    for token in ["01:02:03.99", "00:00:00.00", "12:59:59.5", "3:04:05"] {
        let d = parse_time_to_duration(token.as_bytes()).unwrap();
        let shown = format_duration(&d);
        let expected: Vec<u64> = token
            .split(':')
            .map(|p| p.split('.').next().unwrap().parse().unwrap())
            .collect();
        let got: Vec<u64> = shown.split(':').map(|p| p.parse().unwrap()).collect();
        assert_eq!(got, expected);
    }
}

#[test]
fn format_pads_and_widens() {
    assert_eq!(format_duration(&secs(0)), "00:00:00");
    assert_eq!(format_duration(&Duration::new(3723, 999_999_999)), "01:02:03");
    assert_eq!(format_duration(&secs(100 * 3600 + 61)), "100:01:01");
}

#[test]
fn duration_extractor_reads_declared_length() {
    let line = b"  Duration: 01:02:03.50, start: 0.000000, bitrate: 1205 kb/s";
    assert_eq!(parse_total_duration(line), Some(Duration::new(3723, 500_000_000)));
}

#[test]
fn duration_extractor_misses_without_marker_or_comma() {
    assert_eq!(parse_total_duration(b"Stream #0:0: Video: h264"), None);
    assert_eq!(parse_total_duration(b""), None);
    assert_eq!(parse_total_duration(b"Duration: 00:00:10.00"), None);
    assert_eq!(parse_total_duration(b"Duration: N/A, start: 0"), None);
}

#[test]
fn duration_extractor_rejects_zero_length() {
    assert_eq!(parse_total_duration(b"Duration: 00:00:00.00, start: 0"), None);
}

#[test]
fn progress_extractor_reads_position_and_speed() {
    let p = parse_progress(b"frame=10 time=00:00:05.00 bitrate=... speed=2.5x").unwrap();
    assert_eq!(p.current_time, secs(5));
    assert_eq!(p.speed_str, b"2.5x   ".to_vec());
}

#[test]
fn progress_extractor_uses_placeholder_without_speed() {
    let p = parse_progress(b"frame=10 time=00:00:05.00 bitrate=...").unwrap();
    assert_eq!(p.current_time, secs(5));
    assert_eq!(p.speed_str, b"0.0x   ".to_vec());
}

#[test]
fn progress_extractor_trims_and_keeps_long_speed() {
    let p = parse_progress(b"time=00:00:01.00 speed= 12.34x").unwrap();
    assert_eq!(p.speed_str, b"12.34x ".to_vec());
    let p = parse_progress(b"time=00:00:01.00 speed=123.45x").unwrap();
    assert_eq!(p.speed_str, b"123.45x".to_vec());
    let p = parse_progress(b"time=00:00:01.00 speed=N/A").unwrap();
    assert_eq!(p.speed_str, b"0.0x   ".to_vec());
}

#[test]
fn progress_extractor_misses_without_position() {
    assert!(parse_progress(b"frame=10 speed=2.5x").is_none());
    assert!(parse_progress(b"time=00:00:05.00").is_none());
    assert!(parse_progress(b"time=N/A speed=2.5x").is_none());
}

#[test]
fn percentage_is_exact_at_total() {
    let total = Duration::new(10, 1);
    assert_eq!(percentage(&total, &total), PERCENT_SCALE as u128);
    assert_eq!(percentage(&secs(5), &secs(10)), 50_000);
    assert_eq!(percentage(&secs(1), &secs(3)), 33_333);
    assert_eq!(percentage(&secs(0), &secs(3)), 0);
    assert_eq!(percentage(&secs(20), &secs(10)), 200_000);
}

#[test]
fn percentage_never_drops_for_later_positions() {
    let total = Duration::new(61, 250_000_000);
    let mut last = 0u128;
    for ms in (0..70_000u64).step_by(777) {
        let p = percentage(&Duration::from_millis(ms), &total);
        assert!(p >= last);
        last = p;
    }
}

#[test]
fn remaining_estimate_follows_calibration_and_rate() {
    let total = secs(100);
    assert_eq!(estimate_remaining(50_000, &total, 999), 100_000);
    assert_eq!(estimate_remaining(50_000, &total, 10_000), 10_000);
    assert_eq!(estimate_remaining(25_000, &total, 10_000), 30_000);
    assert_eq!(estimate_remaining(100_000, &total, 10_000), 0);
    assert_eq!(estimate_remaining(0, &total, 10_000), 100_000);
    assert_eq!(estimate_remaining(150_000, &total, 10_000), 100_000);
}

#[test]
fn tracker_end_to_end_scenario() {
    let mut t = ProgressTracker::new();
    assert_eq!(t.last_percent_floor, NO_PERCENT_YET);
    assert!(t.update(b"Duration: 00:01:00.00, start: 0.000000", 0).is_none());
    assert_eq!(t.total_duration, Some(secs(60)));
    let s = t.update(b"time=00:00:30.00 speed=2.0x", 15_000).unwrap();
    assert_eq!(s.percent, 50_000);
    assert!(s.percent_changed);
    assert_eq!(s.total, secs(60));
    assert_eq!(s.remaining_millis, 15_000);
    let s = t.update(b"time=00:01:00.00 speed=2.0x", 30_000).unwrap();
    assert_eq!(s.percent, 100_000);
    assert_eq!(s.percent_floor(), 100);
    assert!(s.is_completed());
}

#[test]
fn tracker_drops_progress_before_total() {
    let mut t = ProgressTracker::new();
    assert!(t.update(b"time=00:00:30.00 speed=2.0x", 0).is_none());
    assert!(!t.has_total());
    assert_eq!(t.last_percent_floor, NO_PERCENT_YET);
}

#[test]
fn tracker_keeps_first_total() {
    let mut t = ProgressTracker::new();
    t.update(b"Duration: 00:00:10.00, start: 0", 0);
    t.update(b"Duration: 00:00:20.00, start: 0", 0);
    assert_eq!(t.total_duration, Some(secs(10)));
}

#[test]
fn tracker_reports_percent_change_once_per_whole_percent() {
    let mut t = ProgressTracker::new();
    t.update(b"Duration: 00:01:40.00, start: 0", 0);
    let a = t.update(b"time=00:00:01.00 speed=1x", 2_000).unwrap();
    let b = t.update(b"time=00:00:01.50 speed=1x", 2_000).unwrap();
    let c = t.update(b"time=00:00:02.00 speed=1x", 2_000).unwrap();
    assert!(a.percent_changed);
    assert!(!b.percent_changed);
    assert!(c.percent_changed);
    assert_eq!(c.percent_tenths(), 20);
    assert!(t.update(b"frame=1 fps=0.0", 2_000).is_none());
    assert_eq!(t.last_percent_floor, 2);
}

#[test]
fn tracker_ignores_garbled_lines() {
    let mut t = ProgressTracker::new();
    t.update(b"Duration: 00:01:00.00, start: 0", 0);
    assert!(t.update(b"time=00:xx:30.00 speed=2.0x", 0).is_none());
    assert!(t.update(b"", 0).is_none());
}

#[test]
fn splitter_breaks_on_cr_and_lf_and_skips_empty() {
    let lines = split_lines(b"a\r\nbc\rd\n\n\re");
    assert_eq!(lines, vec![b"a".to_vec(), b"bc".to_vec(), b"d".to_vec()]);
    let mut s = LineSplitter::new();
    assert_eq!(s.push_byte(b'x'), None);
    assert_eq!(s.push_byte(b'\r'), Some(b"x".to_vec()));
    assert_eq!(s.push_byte(b'\n'), None);
    assert!(s.buffer.is_empty());
}

#[test]
fn stream_feeds_tracker_in_order() {
    let stream = b"Duration: 00:00:10.00, start: 0\nframe=1 time=00:00:05.00 speed=1.0x\rframe=2 time=00:00:10.00 speed=1.0x\r";
    let mut t = ProgressTracker::new();
    let mut percents = Vec::new();
    let mut s = LineSplitter::new();
    for b in stream.iter() {
        if let Some(line) = s.push_byte(*b) {
            if let Some(snap) = t.update(&line, 5_000) {
                percents.push(snap.percent);
            }
        }
    }
    assert_eq!(percents, vec![50_000, 100_000]);
}

#[test]
fn summary_shows_completion_and_overall_speed() {
    let o = EncodingOutcome::new(true, Some(secs(60)), 30_400);
    assert_eq!(o.elapsed_secs, 30);
    assert_eq!(o.final_percent(), Some(PERCENT_SCALE));
    assert_eq!(o.speed_tenths(), Some(20));
    let o = EncodingOutcome::new(true, Some(secs(10)), 3_000);
    assert_eq!(o.speed_tenths(), Some(33));
    let o = EncodingOutcome::new(true, Some(secs(1)), 0);
    assert_eq!(o.elapsed_secs, 1);
    assert_eq!(o.speed_tenths(), Some(10));
}

#[test]
fn summary_without_total_omits_speed() {
    let ok = EncodingOutcome::new(true, None, 5_000);
    assert_eq!(ok.speed_tenths(), None);
    assert_eq!(ok.final_percent(), Some(PERCENT_SCALE));
    let failed = EncodingOutcome::new(false, None, 5_000);
    assert!(!failed.succeeded);
    assert_eq!(failed.final_percent(), None);
    assert_eq!(failed.speed_tenths(), None);
}

#[test]
fn session_reports_short_run_as_complete() {
    let stream = b"  Duration: 00:00:20.00, start: 0.0\r\nframe=9 time=00:00:19.50 speed=4.0x\r";
    let mut s = EncoderSession::new();
    let mut snaps = Vec::new();
    for b in stream.iter() {
        if let Some(snap) = s.feed_byte(*b, 2_000) {
            snaps.push(snap);
        }
    }
    assert_eq!(snaps.len(), 1);
    assert_eq!(snaps[0].percent, 97_500);
    assert_eq!(snaps[0].speed_str, b"4.0x   ".to_vec());
    let o = s.finish(true, 5_000);
    assert_eq!(o.final_percent(), Some(100_000));
    assert_eq!(o.speed_tenths(), Some(40));
    let o = s.finish(false, 5_000);
    assert_eq!(o.final_percent(), None);
}

#[test]
fn session_without_duration_never_reports() {
    let stream = b"frame=1 time=00:00:01.00 speed=1.0x\rframe=2 time=00:00:02.00 speed=1.0x\r";
    let mut s = EncoderSession::new();
    for b in stream.iter() {
        assert!(s.feed_byte(*b, 2_000).is_none());
    }
    let o = s.finish(true, 2_000);
    assert_eq!(o.total_duration, None);
    assert_eq!(o.speed_tenths(), None);
    assert!(o.succeeded);
}

#[test]
fn progress_extractor_replaces_malformed_speed() {
    let p = parse_progress(b"time=00:00:05.00 speed=N/A fix").unwrap();
    assert_eq!(p.current_time, secs(5));
    assert_eq!(p.speed_str, b"0.0x   ".to_vec());
    let p = parse_progress(b"time=00:00:05.00 speed=1.2.3x").unwrap();
    assert_eq!(p.speed_str, b"0.0x   ".to_vec());
    let p = parse_progress(b"time=00:00:05.00 speed=.x").unwrap();
    assert_eq!(p.speed_str, b"0.0x   ".to_vec());
    let p = parse_progress(b"time=00:00:05.00 speed=  x").unwrap();
    assert_eq!(p.speed_str, b"0.0x   ".to_vec());
    let p = parse_progress(b"time=00:00:05.00 speed=3x").unwrap();
    assert_eq!(p.speed_str, b"3x     ".to_vec());
}

#[test]
fn progress_extractor_ends_time_at_any_whitespace() {
    let p = parse_progress(b"frame=1 time=00:00:05.00\tspeed=1.0x").unwrap();
    assert_eq!(p.current_time, secs(5));
    assert_eq!(p.speed_str, b"1.0x   ".to_vec());
    let p = parse_progress(b"time=00:00:07.00\r").unwrap();
    assert_eq!(p.current_time, secs(7));
}

#[test]
fn percent_tenths_rounds_to_nearest() {
    let mut t = ProgressTracker::new();
    t.update(b"Duration: 00:00:03.00, start: 0", 0);
    let s = t.update(b"time=00:00:02.00 speed=1x", 0).unwrap();
    assert_eq!(s.percent, 66_666);
    assert_eq!(s.percent_tenths(), 667);
    let s = t.update(b"time=00:00:01.00 speed=1x", 0).unwrap();
    assert_eq!(s.percent_tenths(), 333);
}

#[test]
fn time_parser_accepts_plus_signs() {
    assert_eq!(parse_time_to_duration(b"+1:00:00"), Some(secs(3600)));
    assert_eq!(parse_time_to_duration(b"0:+05:00"), Some(secs(300)));
    assert_eq!(parse_time_to_duration(b"0:00:+5"), Some(secs(5)));
    assert_eq!(parse_time_to_duration(b"0:-1:00"), None);
    assert_eq!(parse_time_to_duration(b"+:00:00"), None);
}

#[test]
fn time_parser_accepts_exponents() {
    assert_eq!(parse_time_to_duration(b"0:00:1e1"), Some(secs(10)));
    assert_eq!(parse_time_to_duration(b"0:00:1.5e1"), Some(secs(15)));
    assert_eq!(parse_time_to_duration(b"0:00:25e-1"), Some(Duration::new(2, 500_000_000)));
    assert_eq!(parse_time_to_duration(b"0:00:5E-1"), Some(Duration::new(0, 500_000_000)));
    assert_eq!(parse_time_to_duration(b"0:00:1e+2"), Some(secs(100)));
    assert_eq!(
        parse_time_to_duration(b"0:00:1.23456789012e2"),
        Some(Duration::new(123, 456_789_012))
    );
    assert_eq!(parse_time_to_duration(b"0:00:1e-10"), Some(secs(0)));
    assert_eq!(parse_time_to_duration(b"0:00:0e99999"), Some(secs(0)));
    assert_eq!(
        parse_time_to_duration(b"0:00:1e-999999999999999999999999999999999999"),
        Some(secs(0))
    );
    assert_eq!(parse_time_to_duration(b"0:00:1e999999999999999999999999999999999999"), None);
    assert_eq!(parse_time_to_duration(b"0:00:1e30"), None);
    assert_eq!(parse_time_to_duration(b"0:00:1e"), None);
    assert_eq!(parse_time_to_duration(b"0:00:e1"), None);
    assert_eq!(parse_time_to_duration(b"0:00:1e1.5"), None);
}

#[test]
fn time_parser_takes_minus_zero_and_refuses_negatives() {
    assert_eq!(parse_time_to_duration(b"1:00:-0"), Some(secs(3600)));
    assert_eq!(parse_time_to_duration(b"0:00:-0.000e5"), Some(secs(0)));
    assert_eq!(parse_time_to_duration(b"0:00:-1"), None);
    assert_eq!(parse_time_to_duration(b"0:00:-0.5"), None);
    assert_eq!(parse_time_to_duration(b"0:00:inf"), None);
    assert_eq!(parse_time_to_duration(b"0:00:NaN"), None);
    assert_eq!(parse_time_to_duration(b"0:00:-inf"), None);
}
