//! The alert timer's decision logic: how long to sleep between "you have
//! been on the screen" notifications, and the promise that a zero interval
//! disables the timer altogether.

use crate::text::{dec_rep, push_dec, string_from_chars, chars_to_vec};
use vstd::prelude::*;

verus! {

/// The sleep period, in seconds, between two alert notifications; `None`
/// when the configured interval of `minutes` disables alerts.
pub open spec fn spec_alert_period(minutes: u64) -> Option<u64> {
    if minutes == 0 {
        None
    } else {
        Some((minutes * 60) as u64)
    }
}

/// Decides the alert timer's schedule from the configured interval.
pub fn alert_period(minutes: u64) -> (r: Option<u64>)
    requires
        minutes <= u64::MAX / 60,
    ensures
        r == spec_alert_period(minutes),
        r is None <==> minutes == 0,
{
    if minutes == 0 {
        None
    } else {
        Some(minutes * 60)
    }
}

/// How many notifications the alert timer has shown once `periods` sleep
/// periods have elapsed: one per period, and none at all when the timer is
/// disabled.
pub open spec fn notifications_after(minutes: u64, periods: nat) -> nat {
    if spec_alert_period(minutes) is None {
        0
    } else {
        periods
    }
}

/// An alert interval of zero never notifies, however long the daemon runs.
pub proof fn lemma_zero_interval_never_notifies(periods: nat)
    ensures
        notifications_after(0, periods) == 0,
{
}

/// The body text of the periodic notification.
pub fn alert_message(minutes: u64) -> (m: String)
    ensures
        m@ == "You have been on the screen for "@ + dec_rep(minutes as nat) + " minutes"@,
{
    let mut chars = chars_to_vec("You have been on the screen for ");
    push_dec(&mut chars, minutes);
    let mut tail = chars_to_vec(" minutes");
    chars.append(&mut tail);
    string_from_chars(&chars)
}

} // verus!
