use screen_time::accumulator::Accumulator;
use screen_time::csvlog::{encode_batch, parse_log};
use screen_time::retention::retain_log;
use std::time::{SystemTime, UNIX_EPOCH};

fn now_secs() -> u64 {
    SystemTime::now().duration_since(UNIX_EPOCH).unwrap().as_secs()
}

#[test]
fn test_write_headers_to_csv() {
    let mut program_times = Accumulator::new();
    program_times.insert("Application".to_string(), 0);
    let rows = program_times.to_rows(now_secs());
    let content = encode_batch(&rows, true);
    assert!(content.starts_with("timestamp,application,duration\n"));
    let rows_vector = parse_log(&content).unwrap();
    assert_eq!(rows_vector.len(), 1);
    assert_eq!(rows_vector[0].application, "Application");
    assert_eq!(rows_vector[0].duration, 0);
}

#[test]
fn test_write_data_to_csv() {
    let mut program_times = Accumulator::new();
    program_times.insert("Application".to_string(), 0);
    program_times.insert("Test".to_string(), 10);
    let rows = program_times.to_rows(now_secs());
    let content = encode_batch(&rows, true);
    let rows_vector = parse_log(&content).unwrap();

    assert_eq!(rows_vector.len(), 2);
    if rows_vector[0].application == "Application" {
        assert_eq!(rows_vector[0].duration, 0);
        assert_eq!(rows_vector[1].application, "Test");
        assert_eq!(rows_vector[1].duration, 10);
    } else {
        assert_eq!(rows_vector[1].application, "Application");
        assert_eq!(rows_vector[1].duration, 0);
        assert_eq!(rows_vector[0].application, "Test");
        assert_eq!(rows_vector[0].duration, 10);
    }
}

#[test]
fn test_remove_all_data() {
    let mut program_times = Accumulator::new();
    program_times.insert("Application".to_string(), 0);
    program_times.insert("Test".to_string(), 10);
    let rows = program_times.to_rows(now_secs());
    let content = encode_batch(&rows, true);
    let rows_vector = parse_log(&content).unwrap();
    assert_eq!(rows_vector.len(), 2);

    // Remove the oldest month of data, which deletes everything
    let content = retain_log(&content, 1).unwrap();
    let rows_vector = parse_log(&content).unwrap();
    assert_eq!(rows_vector.len(), 0);
}

#[test]
fn test_remove_one_month_data() {
    let now = now_secs();
    let one_month: u64 = 60 * 60 * 24 * 30;
    let two_months_ago = now - 2 * one_month;

    let mut program_times = Accumulator::new();
    program_times.insert("Application".to_string(), 0);
    let old_rows = program_times.to_rows(two_months_ago);
    let mut content = encode_batch(&old_rows, true);
    program_times.clear();
    program_times.insert("Test".to_string(), 10);
    let new_rows = program_times.to_rows(now);
    content.push_str(&encode_batch(&new_rows, false));

    let rows_vector = parse_log(&content).unwrap();
    assert_eq!(rows_vector.len(), 2);

    let content = retain_log(&content, 1).unwrap();
    let rows_vector = parse_log(&content).unwrap();
    assert_eq!(rows_vector.len(), 1);
    assert_eq!(rows_vector[0].application, "Test");
    assert_eq!(rows_vector[0].duration, 10);
}

#[test]
fn encode_batch_exact_text() {
    let mut program_times = Accumulator::new();
    program_times.insert("Application".to_string(), 0);
    let rows = program_times.to_rows(1700000000);
    let content = encode_batch(&rows, true);
    assert_eq!(
        content,
        "timestamp,application,duration\n1700000000,Application,0\n"
    );
}

#[test]
fn empty_flush_appends_nothing() {
    let program_times = Accumulator::new();
    let rows = program_times.to_rows(now_secs());
    assert_eq!(encode_batch(&rows, true), "");
    assert_eq!(encode_batch(&rows, false), "");
}

#[test]
fn quoted_application_round_trip() {
    let mut program_times = Accumulator::new();
    let weird = "we,ird\"app\nname".to_string();
    program_times.insert(weird.clone(), 7);
    let rows = program_times.to_rows(42);
    let content = encode_batch(&rows, true);
    let rows_vector = parse_log(&content).unwrap();
    assert_eq!(rows_vector.len(), 1);
    assert_eq!(rows_vector[0].application, weird);
    assert_eq!(rows_vector[0].timestamp, 42);
    assert_eq!(rows_vector[0].duration, 7);
}

#[test]
fn retention_no_op_on_header_only_file() {
    let content = "timestamp,application,duration\n".to_string();
    let after = retain_log(&content, 1).unwrap();
    assert_eq!(after, content);
}

#[test]
fn retention_no_op_on_empty_file() {
    let after = retain_log("", 1).unwrap();
    assert_eq!(after, "");
}

#[test]
fn retention_fails_on_malformed_file() {
    assert!(retain_log("garbage", 1).is_none());
    assert!(retain_log("timestamp,application,duration\nnot,a,row\n", 1).is_none());
}

#[test]
fn retention_keeps_rows_outside_window() {
    let now = 10_000_000u64;
    let content = format!(
        "timestamp,application,duration\n{},old,1\n{},kept,2\n",
        now,
        now + 2_592_001
    );
    let after = retain_log(&content, 1).unwrap();
    let rows = parse_log(&after).unwrap();
    assert_eq!(rows.len(), 1);
    assert_eq!(rows[0].application, "kept");
    assert_eq!(rows[0].duration, 2);
}
