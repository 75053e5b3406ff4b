//! Display values handed to a front end: elapsed time and recorded wins.

use vstd::prelude::*;

verus! {

use crate::text::{dec_chars, dec_string};
use vstd::string::*;

/// The text for an elapsed duration: seconds up to a minute, minutes and
/// seconds up to an hour, whole hours beyond.
pub open spec fn spec_format_elapsed(seconds: u64) -> Seq<char> {
    if seconds <= 59 {
        dec_chars(seconds as int) + " seconds"@
    } else if seconds <= 3599 {
        dec_chars(seconds as int / 60) + " minute(s) "@ + dec_chars(seconds as int % 60)
            + " seconds"@
    } else {
        dec_chars(seconds as int / 3600) + " hours"@
    }
}

/// Displayable elapsed time.
pub fn format_elapsed(seconds: u64) -> (s: String)
    ensures
        s@ == spec_format_elapsed(seconds),
{
    if seconds <= 59 {
        let mut s = dec_string(seconds);
        s.append(" seconds");
        proof {
            assert(s@ =~= spec_format_elapsed(seconds));
        }
        s
    } else if seconds <= 3599 {
        let mut s = dec_string(seconds / 60);
        s.append(" minute(s) ");
        let rest = dec_string(seconds % 60);
        s.append(rest.as_str());
        s.append(" seconds");
        proof {
            assert(s@ =~= spec_format_elapsed(seconds));
        }
        s
    } else {
        let mut s = dec_string(seconds / 3600);
        s.append(" hours");
        proof {
            assert(s@ =~= spec_format_elapsed(seconds));
        }
        s
    }
}

/// Payload for the time event a front end shows while a game runs.
pub struct TimeEvent {
    /// Formatted game time duration.
    pub duration: String,
}

impl TimeEvent {
    /// The event for a number of elapsed seconds.
    pub fn of_seconds(seconds: u64) -> (t: TimeEvent)
        ensures
            t.duration@ == spec_format_elapsed(seconds),
    {
        TimeEvent { duration: format_elapsed(seconds) }
    }
}

/// One recorded win, ready for display.
pub struct WinView {
    /// The date of the win, already rendered by the caller.
    pub date: String,
    /// The win's duration as displayable text.
    pub duration: String,
}

impl WinView {
    /// Build the display record for a win from its rendered date and its
    /// duration in seconds.
    pub fn new(date: String, duration: u64) -> (v: WinView)
        ensures
            v.date@ == date@,
            v.duration@ == spec_format_elapsed(duration),
    {
        WinView { date, duration: format_elapsed(duration) }
    }
}

} // verus!
