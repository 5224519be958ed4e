use screen_time::protocol::{
    alert_interval_reply, delete_request, dispatch, interpret_delete_response, parse_alert_interval_reply,
    parse_command, reply_literal, retention_reply, terminating_message, Command, DeleteOutcome, Reply,
};

#[test]
fn parses_fixed_commands() {
    assert_eq!(parse_command("HEALTH_CHECK"), Command::HealthCheck);
    assert_eq!(parse_command("UPDATE_CSV"), Command::UpdateCsv);
    assert_eq!(parse_command("PATH"), Command::Path);
    assert_eq!(parse_command("ALERT_SCREEN"), Command::AlertScreen);
}

#[test]
fn parses_delete_with_months() {
    assert_eq!(parse_command("DELETE 3"), Command::Delete(3));
    assert_eq!(parse_command("DELETE  12 "), Command::Delete(12));
    assert_eq!(parse_command("DELETE 0"), Command::Delete(0));
}

#[test]
fn rejects_malformed_delete() {
    assert_eq!(parse_command("DELETE abc"), Command::DeleteInvalid);
    assert_eq!(parse_command("DELETE "), Command::DeleteInvalid);
    assert_eq!(parse_command("DELETE -1"), Command::DeleteInvalid);
    assert_eq!(parse_command("DELETE 99999999999999999999"), Command::DeleteInvalid);
}

#[test]
fn unknown_payloads() {
    assert_eq!(parse_command(""), Command::Unknown);
    assert_eq!(parse_command("DELETE"), Command::Unknown);
    assert_eq!(parse_command("health_check"), Command::Unknown);
    assert_eq!(parse_command("UPDATE_CSV "), Command::Unknown);
}

#[test]
fn terminating_payload_is_not_a_command() {
    let payload = terminating_message();
    assert_eq!(payload, "Terminating Stream");
    let cmd = parse_command(&payload);
    assert_eq!(cmd, Command::Unknown);
    let d = dispatch(&cmd);
    assert_eq!(d.reply, Reply::NoReply);
    assert!(!d.set_update_requested);
    assert!(d.retain_months.is_none());
}

#[test]
fn health_check_is_read_only() {
    let d = dispatch(&parse_command("HEALTH_CHECK"));
    assert!(!d.set_update_requested);
    assert!(d.retain_months.is_none());
    assert_eq!(d.reply, Reply::Acknowledge);
    assert_eq!(reply_literal(&d.reply), Some("Ok"));
}

#[test]
fn update_csv_sets_flag_and_answers_success() {
    let d = dispatch(&parse_command("UPDATE_CSV"));
    assert!(d.set_update_requested);
    assert!(d.retain_months.is_none());
    assert_eq!(reply_literal(&d.reply), Some("Success"));
}

#[test]
fn delete_dispatch_requests_retention() {
    let d = dispatch(&parse_command("DELETE 2"));
    assert!(!d.set_update_requested);
    assert_eq!(d.retain_months, Some(2));
    assert_eq!(d.reply, Reply::RetentionOutcome);
    assert_eq!(reply_literal(&d.reply), None);
    assert_eq!(retention_reply(true), "Success");
    assert_eq!(retention_reply(false), "Failure");
}

#[test]
fn invalid_delete_answers_failure_and_leaves_log_untouched() {
    let log_before = "timestamp,application,duration\n1700000000,Application,3\n".to_string();
    let cmd = parse_command("DELETE abc");
    assert_eq!(cmd, Command::DeleteInvalid);
    let d = dispatch(&cmd);
    assert_eq!(reply_literal(&d.reply), Some("Failure"));
    assert!(d.retain_months.is_none());
    assert!(!d.set_update_requested);
    // no retention was requested, so the log stays byte-identical
    let log_after = log_before.clone();
    assert_eq!(log_after, log_before);
}

#[test]
fn delete_request_round_trip() {
    assert_eq!(delete_request(5), "DELETE 5");
    assert_eq!(parse_command(&delete_request(12)), Command::Delete(12));
    assert_eq!(parse_command(&delete_request(0)), Command::Delete(0));
}

#[test]
fn alert_interval_reply_round_trip() {
    assert_eq!(alert_interval_reply(45), "45");
    assert_eq!(parse_alert_interval_reply(&alert_interval_reply(45)), Some(45));
    assert_eq!(parse_alert_interval_reply(" 45 \n"), Some(45));
    assert_eq!(parse_alert_interval_reply("forty"), None);
}

#[test]
fn delete_response_interpretation() {
    assert_eq!(interpret_delete_response("Failure"), DeleteOutcome::Failed);
    assert_eq!(interpret_delete_response("Success"), DeleteOutcome::Succeeded);
    assert_eq!(interpret_delete_response(" Success \n"), DeleteOutcome::Succeeded);
    assert_eq!(interpret_delete_response("anything else"), DeleteOutcome::Unrecognized);
}
