//! Startup configuration: the alert interval, in minutes, read from the
//! text of the `ALERT_SCREEN` setting.

use crate::text::{chars_to_vec, is_u64_text, parse_u64_chars, trim_chars, trim_spec, u64_text_val};
use vstd::prelude::*;

verus! {

/// The daemon's one required configuration value.
#[derive(Debug)]
pub struct Config {
    alert_screen_time: u64,
}

impl Config {
    /// Whether `s` is accepted as an alert-interval setting: after trimming
    /// whitespace it must read as a decimal `u64`.
    pub open spec fn accepts(s: Seq<char>) -> bool {
        is_u64_text(trim_spec(s))
    }

    /// The minutes value that the setting text `s` denotes.
    pub open spec fn value_of(s: Seq<char>) -> nat {
        u64_text_val(trim_spec(s))
    }

    pub closed spec fn spec_alert_screen_time(&self) -> u64 {
        self.alert_screen_time
    }

    /// Parses the alert-interval setting; rejects anything that does not
    /// read as a non-negative number of minutes.
    pub fn build(alert_screen_time: &str) -> (r: Result<Config, &'static str>)
        ensures
            Self::accepts(alert_screen_time@) ==> (r matches Ok(c) && c.spec_alert_screen_time()
                == Self::value_of(alert_screen_time@)),
            !Self::accepts(alert_screen_time@) ==> (r matches Err(m) && m@
                == "Invalid work session duration"@),
    {
        let chars = chars_to_vec(alert_screen_time);
        let trimmed = trim_chars(&chars);
        match parse_u64_chars(&trimmed) {
            Some(minutes) => Ok(Config { alert_screen_time: minutes }),
            None => Err("Invalid work session duration"),
        }
    }

    pub fn get_alert_screen_time(&self) -> (t: u64)
        ensures
            t == self.spec_alert_screen_time(),
    {
        self.alert_screen_time
    }
}

} // verus!
