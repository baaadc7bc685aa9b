use vstd::prelude::*;
use vstd::string::StrSliceExecFns;
use crate::calendar::{format_datetime, formatted, iso_week_index, iso_week_of};
use crate::datetime::{DateTime, Session};

verus! {

/// The pattern a date and time is shown with, seen from `now`: with its
/// year when that differs, with day and month outside the current ISO
/// week, with the weekday on another day of the week, else the time alone.
pub open spec fn pattern_for(d: DateTime, now: DateTime) -> Seq<char> {
    if d.date.year != now.date.year {
        "%e %b %Y %-I:%M %p"@
    } else if iso_week_index(d.date) != iso_week_index(now.date) {
        "%e %b %-I:%M %p"@
    } else if d.date.day != now.date.day {
        "%A %-I:%M %p"@
    } else {
        "%-I:%M %p"@
    }
}

/// The text of a date and time seen from `now`.
pub open spec fn datetime_shown(d: DateTime, now: DateTime) -> Seq<char> {
    formatted(d, pattern_for(d, now))
}

/// The text of a session seen from `now`: its two ends joined by " to ".
pub open spec fn session_shown(s: Session, now: DateTime) -> Seq<char> {
    datetime_shown(s.start, now) + " to "@ + datetime_shown(s.end, now)
}

/// The text of an optional date, empty when there is none.
pub open spec fn due_shown(d: Option<DateTime>, now: DateTime) -> Seq<char> {
    match d {
        Some(d) => datetime_shown(d, now),
        None => Seq::empty(),
    }
}

/// The text of an optional session, empty when there is none.
pub open spec fn session_opt_shown(s: Option<Session>, now: DateTime) -> Seq<char> {
    match s {
        Some(s) => session_shown(s, now),
        None => Seq::empty(),
    }
}

/// Appends the characters of `t` to `s`.
fn append(s: &mut String, t: &str)
    ensures
        final(s)@ == old(s)@ + t@,
{
    let n = t.unicode_len();
    let mut i: usize = 0;
    while i < n
        invariant
            n == t@.len(),
            i <= n,
            s@ == old(s)@ + t@.subrange(0, i as int),
        decreases n - i,
    {
        s.push(t.get_char(i));
        i = i + 1;
        assert(s@ =~= old(s)@ + t@.subrange(0, i as int));
    }
    assert(t@.subrange(0, n as int) =~= t@);
}

/// Shows a date and time as seen from `now`.
pub fn datetime_text(d: DateTime, now: DateTime) -> (r: String)
    ensures
        r@ == datetime_shown(d, now),
{
    proof {
        reveal_strlit("%e %b %Y %-I:%M %p");
        reveal_strlit("%e %b %-I:%M %p");
        reveal_strlit("%A %-I:%M %p");
        reveal_strlit("%-I:%M %p");
    }
    let pattern = if d.date.year != now.date.year {
        "%e %b %Y %-I:%M %p"
    } else if iso_week_of(d.date) != iso_week_of(now.date) {
        "%e %b %-I:%M %p"
    } else if d.date.day != now.date.day {
        "%A %-I:%M %p"
    } else {
        "%-I:%M %p"
    };
    format_datetime(d, pattern)
}

/// Shows a session as seen from `now`.
pub fn session_text(s: Session, now: DateTime) -> (r: String)
    ensures
        r@ == session_shown(s, now),
{
    proof {
        reveal_strlit(" to ");
    }
    let mut r = datetime_text(s.start, now);
    append(&mut r, " to ");
    let end = datetime_text(s.end, now);
    append(&mut r, end.as_str());
    r
}

/// Shows an optional due date as seen from `now`.
pub fn due_text(d: Option<DateTime>, now: DateTime) -> (r: String)
    ensures
        r@ == due_shown(d, now),
{
    match d {
        Some(d) => datetime_text(d, now),
        None => String::new(),
    }
}

/// Shows an optional session as seen from `now`.
pub fn session_opt_text(s: Option<Session>, now: DateTime) -> (r: String)
    ensures
        r@ == session_opt_shown(s, now),
{
    match s {
        Some(s) => session_text(s, now),
        None => String::new(),
    }
}

} // verus!
