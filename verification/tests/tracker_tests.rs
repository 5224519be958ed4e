use screen_time::alert::{alert_message, alert_period};
use screen_time::analysis::{date_screen_time, row_details, week_screen_time};
use screen_time::csvlog::{encode_batch, parse_log};
use screen_time::protocol::{dispatch, parse_command, reply_literal};
use screen_time::rows::Row;
use screen_time::tracker::{FlushStep, Tracker};

#[test]
fn accumulator_counts_ticks_per_application() {
    let mut tracker = Tracker::new();
    let a = Some("A".to_string());
    let none: Option<String> = None;
    tracker.record_sample(&a);
    tracker.record_sample(&none);
    tracker.record_sample(&a);
    tracker.record_sample(&a);
    assert_eq!(tracker.get_seconds(&"A".to_string()), Some(3));
    assert_eq!(tracker.get_seconds(&"B".to_string()), None);
}

#[test]
fn update_flush_writes_one_row_per_application() {
    // The scenario: "A" accumulates 3 ticks, "B" accumulates 2 ticks, then
    // UPDATE_CSV is issued: the log gains exactly two rows, durations 3 and
    // 2, sharing one timestamp.
    let mut tracker = Tracker::new();
    let a = Some("A".to_string());
    let b = Some("B".to_string());
    tracker.record_sample(&a);
    tracker.record_sample(&a);
    tracker.record_sample(&b);
    tracker.record_sample(&a);
    tracker.record_sample(&b);

    let d = dispatch(&parse_command("UPDATE_CSV"));
    assert!(d.set_update_requested);

    let ts = 1700000123;
    match tracker.flush_step(false, d.set_update_requested, ts) {
        FlushStep::Update { batch } => {
            assert_eq!(batch.len(), 2);
            assert_eq!(batch[0].application, "A");
            assert_eq!(batch[0].duration, 3);
            assert_eq!(batch[1].application, "B");
            assert_eq!(batch[1].duration, 2);
            assert_eq!(batch[0].timestamp, ts);
            assert_eq!(batch[1].timestamp, ts);
            let content = encode_batch(&batch, true);
            let rows = parse_log(&content).unwrap();
            assert_eq!(rows.len(), 2);
        }
        _ => panic!("expected an update flush"),
    }
}

#[test]
fn second_update_with_no_accumulation_appends_zero_rows() {
    let mut tracker = Tracker::new();
    let a = Some("A".to_string());
    tracker.record_sample(&a);

    let mut log = String::new();
    match tracker.flush_step(false, true, 100) {
        FlushStep::Update { batch } => {
            assert_eq!(batch.len(), 1);
            log.push_str(&encode_batch(&batch, log.is_empty()));
        }
        _ => panic!("expected an update flush"),
    }
    let after_first = log.clone();

    // a second UPDATE_CSV with nothing newly accumulated
    let d = dispatch(&parse_command("UPDATE_CSV"));
    assert_eq!(reply_literal(&d.reply), Some("Success"));
    match tracker.flush_step(false, d.set_update_requested, 101) {
        FlushStep::Update { batch } => {
            assert_eq!(batch.len(), 0);
            log.push_str(&encode_batch(&batch, log.is_empty()));
        }
        _ => panic!("expected an update flush"),
    }
    assert_eq!(log, after_first);
}

#[test]
fn shutdown_with_pending_update_loses_nothing() {
    // A termination signal arrives on the same tick as a pending
    // update_requested: the update flush runs first, the final flush adds
    // nothing more, and each duration is written exactly once.
    let mut tracker = Tracker::new();
    let a = Some("A".to_string());
    let b = Some("B".to_string());
    tracker.record_sample(&a);
    tracker.record_sample(&a);
    tracker.record_sample(&b);

    let mut log = String::new();
    match tracker.flush_step(true, true, 500) {
        FlushStep::Shutdown { update_batch, final_batch } => {
            log.push_str(&encode_batch(&update_batch, log.is_empty()));
            log.push_str(&encode_batch(&final_batch, log.is_empty()));
            assert_eq!(update_batch.len(), 2);
            assert_eq!(final_batch.len(), 0);
        }
        _ => panic!("expected a shutdown step"),
    }
    let rows = parse_log(&log).unwrap();
    assert_eq!(rows.len(), 2);
    assert_eq!(rows[0].application, "A");
    assert_eq!(rows[0].duration, 2);
    assert_eq!(rows[1].application, "B");
    assert_eq!(rows[1].duration, 1);
}

#[test]
fn shutdown_without_pending_update_flushes_once() {
    let mut tracker = Tracker::new();
    let a = Some("A".to_string());
    tracker.record_sample(&a);
    match tracker.flush_step(true, false, 600) {
        FlushStep::Shutdown { update_batch, final_batch } => {
            assert_eq!(update_batch.len(), 0);
            assert_eq!(final_batch.len(), 1);
            assert_eq!(final_batch[0].application, "A");
            assert_eq!(final_batch[0].duration, 1);
        }
        _ => panic!("expected a shutdown step"),
    }
}

#[test]
fn quiet_tick_continues() {
    let mut tracker = Tracker::new();
    match tracker.flush_step(false, false, 700) {
        FlushStep::Continue => {}
        _ => panic!("expected the tick to continue"),
    }
}

#[test]
fn zero_alert_interval_never_fires() {
    // interval 0 disables the alert timer outright: there is no sleep
    // period, so however long the daemon runs, no notification fires
    assert_eq!(alert_period(0), None);
    assert_eq!(alert_period(45), Some(45 * 60));
    assert_eq!(
        alert_message(45),
        "You have been on the screen for 45 minutes"
    );
}

#[test]
fn date_screen_time_sums_a_day() {
    let day = 1_000_000u64;
    let rows = vec![
        Row { timestamp: day + 10, application: "A".to_string(), duration: 3 },
        Row { timestamp: day + 20, application: "B".to_string(), duration: 2 },
        Row { timestamp: day + 30, application: "A".to_string(), duration: 5 },
        Row { timestamp: day + 90000, application: "A".to_string(), duration: 11 },
    ];
    let totals = date_screen_time(&rows, day);
    assert_eq!(totals.len(), 2);
    // the scan runs newest-first, so "A" keeps its newest in-day timestamp
    assert_eq!(totals[0].application, "A");
    assert_eq!(totals[0].duration, 8);
    assert_eq!(totals[0].timestamp, day + 30);
    assert_eq!(totals[1].application, "B");
    assert_eq!(totals[1].duration, 2);
    let details = row_details(&totals[1]);
    assert_eq!(details.timestamp, day + 20);
    assert_eq!(details.duration, 2);
}

#[test]
fn week_screen_time_covers_seven_days() {
    let start = 1_000_000u64;
    let rows = vec![
        Row { timestamp: start + 5, application: "A".to_string(), duration: 1 },
        Row { timestamp: start + 86400 + 5, application: "B".to_string(), duration: 2 },
    ];
    let week = week_screen_time(&rows, start);
    assert_eq!(week.len(), 7);
    assert_eq!(week[0].len(), 1);
    assert_eq!(week[0][0].application, "A");
    // day boundaries are inclusive on both ends, so a row at the boundary
    // counts for both adjacent days; day 1 starts exactly at start + 86400
    assert_eq!(week[1][0].application, "B");
    assert_eq!(week[6].len(), 0);
}
