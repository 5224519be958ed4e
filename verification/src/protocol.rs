//! The control-socket command language: parsing one connection's text
//! payload into a command, and the directive each command gives the daemon.

use crate::text::{
    all_dec_digits, chars_eq, chars_to_vec, dec_rep, is_dec_digit, is_space_char, is_u64_text,
    lemma_dec_rep_correct, parse_u64_chars, starts_with, string_from_chars, subrange_chars,
    trim_back, trim_chars, trim_front, trim_spec, u64_digits_of, u64_text_val, u64_to_chars,
};
use vstd::prelude::*;

verus! {

broadcast use vstd::string::group_string_axioms;

/// A control command, parsed from the text payload of one connection.
#[derive(Debug, Clone, Copy, PartialEq, Eq, Structural)]
pub enum Command {
    HealthCheck,
    UpdateCsv,
    Path,
    AlertScreen,
    /// A retention prune of the given number of months.
    Delete(u32),
    /// A `DELETE` request whose month count does not parse.
    DeleteInvalid,
    Unknown,
}

/// How one payload text reads as a command.
pub open spec fn spec_parse_command(s: Seq<char>) -> Command {
    if s == "HEALTH_CHECK"@ {
        Command::HealthCheck
    } else if s == "UPDATE_CSV"@ {
        Command::UpdateCsv
    } else if s == "PATH"@ {
        Command::Path
    } else if s == "ALERT_SCREEN"@ {
        Command::AlertScreen
    } else if s.len() >= 7 && s.subrange(0, 7) == "DELETE "@ {
        let arg = trim_spec(s.skip(7));
        if is_u64_text(arg) && u64_text_val(arg) <= u32::MAX {
            Command::Delete(u64_text_val(arg) as u32)
        } else {
            Command::DeleteInvalid
        }
    } else {
        Command::Unknown
    }
}

/// Parses the payload of one connection.
pub fn parse_command(payload: &str) -> (c: Command)
    ensures
        c == spec_parse_command(payload@),
{
    proof {
        reveal_strlit("DELETE ");
    }
    let v = chars_to_vec(payload);
    let health_check = chars_to_vec("HEALTH_CHECK");
    if chars_eq(&v, &health_check) {
        return Command::HealthCheck;
    }
    let update_csv = chars_to_vec("UPDATE_CSV");
    if chars_eq(&v, &update_csv) {
        return Command::UpdateCsv;
    }
    let path = chars_to_vec("PATH");
    if chars_eq(&v, &path) {
        return Command::Path;
    }
    let alert_screen = chars_to_vec("ALERT_SCREEN");
    if chars_eq(&v, &alert_screen) {
        return Command::AlertScreen;
    }
    let delete_prefix = chars_to_vec("DELETE ");
    if starts_with(&v, &delete_prefix) {
        let rest = subrange_chars(&v, delete_prefix.len(), v.len());
        let arg = trim_chars(&rest);
        proof {
            assert(rest@ == v@.skip(7));
        }
        match parse_u64_chars(&arg) {
            Some(months) => {
                if months <= u32::MAX as u64 {
                    return Command::Delete(months as u32);
                }
                return Command::DeleteInvalid;
            },
            None => {
                return Command::DeleteInvalid;
            },
        }
    }
    Command::Unknown
}

/// The replies the daemon can send for one connection.
#[derive(Debug, Clone, Copy, PartialEq, Eq, Structural)]
pub enum Reply {
    /// The literal `Ok`.
    Acknowledge,
    /// The literal `Success`.
    Success,
    /// The literal `Failure`.
    Failure,
    /// The path to the log file, recomputed from the current working
    /// directory at reply time, never cached.
    LogPath,
    /// The configured alert interval, in minutes, as decimal text.
    AlertInterval,
    /// `Success` or `Failure`, depending on the outcome of the retention
    /// prune the command requested.
    RetentionOutcome,
    /// The connection is closed without a reply.
    NoReply,
}

/// Everything the daemon must do in response to one parsed command.
#[derive(Debug, Clone, Copy, PartialEq, Eq, Structural)]
pub struct Directive {
    /// Set the `update_requested` flag; the tracker performs the actual
    /// flush on its own next tick.
    pub set_update_requested: bool,
    /// Run a retention prune of the log with this month count.
    pub retain_months: Option<u32>,
    pub reply: Reply,
}

pub open spec fn spec_directive(c: Command) -> Directive {
    match c {
        Command::HealthCheck => Directive {
            set_update_requested: false,
            retain_months: None,
            reply: Reply::Acknowledge,
        },
        Command::UpdateCsv => Directive {
            set_update_requested: true,
            retain_months: None,
            reply: Reply::Success,
        },
        Command::Path => Directive {
            set_update_requested: false,
            retain_months: None,
            reply: Reply::LogPath,
        },
        Command::AlertScreen => Directive {
            set_update_requested: false,
            retain_months: None,
            reply: Reply::AlertInterval,
        },
        Command::Delete(months) => Directive {
            set_update_requested: false,
            retain_months: Some(months),
            reply: Reply::RetentionOutcome,
        },
        Command::DeleteInvalid => Directive {
            set_update_requested: false,
            retain_months: None,
            reply: Reply::Failure,
        },
        Command::Unknown => Directive {
            set_update_requested: false,
            retain_months: None,
            reply: Reply::NoReply,
        },
    }
}

/// The directive for one command.
pub fn dispatch(c: &Command) -> (d: Directive)
    ensures
        d == spec_directive(*c),
{
    match c {
        Command::HealthCheck => Directive {
            set_update_requested: false,
            retain_months: None,
            reply: Reply::Acknowledge,
        },
        Command::UpdateCsv => Directive {
            set_update_requested: true,
            retain_months: None,
            reply: Reply::Success,
        },
        Command::Path => Directive {
            set_update_requested: false,
            retain_months: None,
            reply: Reply::LogPath,
        },
        Command::AlertScreen => Directive {
            set_update_requested: false,
            retain_months: None,
            reply: Reply::AlertInterval,
        },
        Command::Delete(months) => Directive {
            set_update_requested: false,
            retain_months: Some(*months),
            reply: Reply::RetentionOutcome,
        },
        Command::DeleteInvalid => Directive {
            set_update_requested: false,
            retain_months: None,
            reply: Reply::Failure,
        },
        Command::Unknown => Directive {
            set_update_requested: false,
            retain_months: None,
            reply: Reply::NoReply,
        },
    }
}

/// `HEALTH_CHECK` is read-only: whatever payload parsed to it, its
/// directive writes no flag and requests no file change.
pub proof fn lemma_health_check_read_only(s: Seq<char>)
    requires
        spec_parse_command(s) == Command::HealthCheck,
    ensures
        !spec_directive(spec_parse_command(s)).set_update_requested,
        spec_directive(spec_parse_command(s)).retain_months is None,
        spec_directive(spec_parse_command(s)).reply == Reply::Acknowledge,
{
}

/// A `DELETE` whose argument does not parse answers `Failure`, writes no
/// flag and requests no file change: the log is left exactly as it was.
pub proof fn lemma_invalid_delete_leaves_log(s: Seq<char>)
    requires
        spec_parse_command(s) == Command::DeleteInvalid,
    ensures
        !spec_directive(spec_parse_command(s)).set_update_requested,
        spec_directive(spec_parse_command(s)).retain_months is None,
        spec_directive(spec_parse_command(s)).reply == Reply::Failure,
{
}

/// The literal text for replies that do not depend on daemon state.
pub fn reply_literal(r: &Reply) -> (t: Option<&'static str>)
    ensures
        match r {
            Reply::Acknowledge => t matches Some(m) && m@ == "Ok"@,
            Reply::Success => t matches Some(m) && m@ == "Success"@,
            Reply::Failure => t matches Some(m) && m@ == "Failure"@,
            _ => t is None,
        },
{
    match r {
        Reply::Acknowledge => Some("Ok"),
        Reply::Success => Some("Success"),
        Reply::Failure => Some("Failure"),
        _ => None,
    }
}

/// The reply text for the configured alert interval.
pub fn alert_interval_reply(minutes: u64) -> (t: String)
    ensures
        t@ == dec_rep(minutes as nat),
{
    let chars = u64_to_chars(minutes);
    string_from_chars(&chars)
}

/// The reply text for a finished retention prune.
pub fn retention_reply(succeeded: bool) -> (t: &'static str)
    ensures
        succeeded ==> t@ == "Success"@,
        !succeeded ==> t@ == "Failure"@,
{
    if succeeded {
        "Success"
    } else {
        "Failure"
    }
}

/// The distinguished payload the daemon sends to its own listener so that
/// the final blocking `accept` returns during shutdown.
pub fn terminating_message() -> (t: String)
    ensures
        t@ == "Terminating Stream"@,
{
    let chars = chars_to_vec("Terminating Stream");
    string_from_chars(&chars)
}

/// The request text the companion client sends for a retention prune of
/// `months` months.
pub fn delete_request(months: u32) -> (t: String)
    ensures
        t@ == "DELETE "@ + dec_rep(months as nat),
{
    let mut chars = chars_to_vec("DELETE ");
    crate::text::push_dec(&mut chars, months as u64);
    string_from_chars(&chars)
}

/// Trimming does not change pure digit text.
proof fn lemma_trim_digits(s: Seq<char>)
    requires
        s.len() >= 1,
        all_dec_digits(s),
    ensures
        trim_spec(s) == s,
{
    assert(is_dec_digit(s[0]));
    assert(!is_space_char(s[0])) by {
        assert(' ' as int == 32 && '\t' as int == 9 && '\n' as int == 10 && '\r' as int == 13);
    }
    assert(trim_front(s) == s);
    assert(is_dec_digit(s.last()));
    assert(!is_space_char(s.last())) by {
        assert(' ' as int == 32 && '\t' as int == 9 && '\n' as int == 10 && '\r' as int == 13);
    }
    assert(trim_back(s) == s);
}

/// The daemon reads the client's own `DELETE` request back as exactly the
/// month count it was built from.
pub proof fn lemma_delete_request_round_trip(months: u32)
    ensures
        spec_parse_command("DELETE "@ + dec_rep(months as nat)) == Command::Delete(months),
{
    let digits = dec_rep(months as nat);
    let s = "DELETE "@ + digits;
    lemma_dec_rep_correct(months as nat);
    reveal_strlit("DELETE ");
    reveal_strlit("HEALTH_CHECK");
    reveal_strlit("UPDATE_CSV");
    reveal_strlit("PATH");
    reveal_strlit("ALERT_SCREEN");
    assert(s[0] == 'D');
    assert(s != "HEALTH_CHECK"@) by {
        if s == "HEALTH_CHECK"@ {
            assert(s[0] == 'H');
        }
    }
    assert(s != "UPDATE_CSV"@) by {
        if s == "UPDATE_CSV"@ {
            assert(s[0] == 'U');
        }
    }
    assert(s != "PATH"@) by {
        if s == "PATH"@ {
            assert(s[0] == 'P');
        }
    }
    assert(s != "ALERT_SCREEN"@) by {
        if s == "ALERT_SCREEN"@ {
            assert(s[0] == 'A');
        }
    }
    assert(s.len() >= 7 && s.subrange(0, 7) =~= "DELETE "@);
    assert(s.skip(7) =~= digits);
    lemma_trim_digits(digits);
    assert(digits[0] != '+') by {
        assert(is_dec_digit(digits[0]));
        assert('+' as int == 43);
    }
    assert(u64_digits_of(digits) == digits);
    assert(is_u64_text(digits));
    assert(u64_text_val(digits) == months as nat);
}

/// How the client reads the daemon's reply to the alert-interval query.
pub fn parse_alert_interval_reply(reply: &str) -> (r: Option<u64>)
    ensures
        r == if is_u64_text(trim_spec(reply@)) {
            Some(u64_text_val(trim_spec(reply@)) as u64)
        } else {
            None::<u64>
        },
{
    let chars = chars_to_vec(reply);
    let trimmed = trim_chars(&chars);
    parse_u64_chars(&trimmed)
}

/// The client reads the daemon's alert-interval reply back as exactly the
/// configured minutes.
pub proof fn lemma_alert_interval_round_trip(minutes: u64)
    ensures
        is_u64_text(trim_spec(dec_rep(minutes as nat))),
        u64_text_val(trim_spec(dec_rep(minutes as nat))) == minutes as nat,
{
    let digits = dec_rep(minutes as nat);
    lemma_dec_rep_correct(minutes as nat);
    lemma_trim_digits(digits);
    assert(digits[0] != '+') by {
        assert(is_dec_digit(digits[0]));
        assert('+' as int == 43);
    }
    assert(u64_digits_of(digits) == digits);
}

/// The client's reading of the daemon's reply to a `DELETE` request.
#[derive(Debug, Clone, Copy, PartialEq, Eq, Structural)]
pub enum DeleteOutcome {
    Succeeded,
    Failed,
    Unrecognized,
}

/// How the client reads the daemon's reply to a `DELETE` request.
pub fn interpret_delete_response(reply: &str) -> (o: DeleteOutcome)
    ensures
        o == if trim_spec(reply@) == "Failure"@ {
            DeleteOutcome::Failed
        } else if trim_spec(reply@) == "Success"@ {
            DeleteOutcome::Succeeded
        } else {
            DeleteOutcome::Unrecognized
        },
{
    let chars = chars_to_vec(reply);
    let trimmed = trim_chars(&chars);
    let failure = chars_to_vec("Failure");
    if chars_eq(&trimmed, &failure) {
        return DeleteOutcome::Failed;
    }
    let success = chars_to_vec("Success");
    if chars_eq(&trimmed, &success) {
        return DeleteOutcome::Succeeded;
    }
    DeleteOutcome::Unrecognized
}

} // verus!
