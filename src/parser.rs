use vstd::prelude::*;
use vstd::string::StringSliceAdditionalSpecFns;
use crate::calendar::{add_days, days_after, days_before, from_ymd, sub_days, weekday_index, weekday_of, ymd_valid};
use crate::datetime::{Date, DateTime, Session, Time};

verus! {

/// The outcome of one rule of the grammar at a position: a value and the
/// position after it; no match, so that the next alternative is tried; or a
/// match that cannot stand (an hour past 12, a day the calendar lacks),
/// which ends the whole parse.
#[derive(Clone, Copy, PartialEq, Eq, Structural, Debug)]
pub enum Step<T> {
    Done(T, usize),
    Back,
    Cut,
}

/// A date, time or session that could not be read.
#[derive(Clone, Copy, PartialEq, Eq, Structural, Debug)]
pub struct ParseError {
    pub offset: usize,
}

pub open spec fn is_digit(c: u8) -> bool {
    48 <= c <= 57
}

pub open spec fn to_lower(c: u8) -> u8 {
    if 65 <= c <= 90 {
        (c + 32) as u8
    } else {
        c
    }
}

/// The keywords of the grammar, lower case: the relative days, then each
/// weekday's long and short name from Monday on.
pub open spec fn keyword(k: int) -> Seq<u8> {
    if k == 0 {
        seq![116u8, 111, 100, 97, 121]
    } else if k == 1 {
        seq![121u8, 101, 115, 116, 101, 114, 100, 97, 121]
    } else if k == 2 {
        seq![116u8, 109, 114, 119]
    } else if k == 3 {
        seq![116u8, 111, 109, 111, 114, 114, 111, 119]
    } else if k == 4 {
        seq![109u8, 111, 110, 100, 97, 121]
    } else if k == 5 {
        seq![109u8, 111, 110]
    } else if k == 6 {
        seq![116u8, 117, 101, 115, 100, 97, 121]
    } else if k == 7 {
        seq![116u8, 117, 101]
    } else if k == 8 {
        seq![119u8, 101, 100, 110, 101, 115, 100, 97, 121]
    } else if k == 9 {
        seq![119u8, 101, 100]
    } else if k == 10 {
        seq![116u8, 104, 117, 114, 115, 100, 97, 121]
    } else if k == 11 {
        seq![116u8, 104, 117]
    } else if k == 12 {
        seq![102u8, 114, 105, 100, 97, 121]
    } else if k == 13 {
        seq![102u8, 114, 105]
    } else if k == 14 {
        seq![115u8, 97, 116, 117, 114, 100, 97, 121]
    } else if k == 15 {
        seq![115u8, 97, 116]
    } else if k == 16 {
        seq![115u8, 117, 110, 100, 97, 121]
    } else {
        seq![115u8, 117, 110]
    }
}

/// Keyword `k` stands at `i`, in any case.
pub open spec fn keyword_at(b: Seq<u8>, i: int, k: int) -> bool {
    &&& 0 <= i
    &&& i + keyword(k).len() <= b.len()
    &&& forall|j: int| 0 <= j < keyword(k).len() ==> to_lower(#[trigger] b[i + j]) == keyword(k)[j]
}

/// The first position from `i` on that is not a digit.
pub open spec fn digits_end(b: Seq<u8>, i: int) -> int
    decreases b.len() - i,
{
    if 0 <= i < b.len() && is_digit(b[i]) {
        digits_end(b, i + 1)
    } else {
        i
    }
}

/// The first position from `i` on that is neither a space nor a tab.
pub open spec fn spaces_end(b: Seq<u8>, i: int) -> int
    decreases b.len() - i,
{
    if 0 <= i < b.len() && (b[i] == 32 || b[i] == 9) {
        spaces_end(b, i + 1)
    } else {
        i
    }
}

/// The decimal value of the digits in `[i, j)`.
pub open spec fn digits_value(b: Seq<u8>, i: int, j: int) -> int
    decreases j - i,
{
    if j <= i {
        0
    } else {
        digits_value(b, i, j - 1) * 10 + (b[j - 1] - 48)
    }
}

/// The hours that "am" or "pm" adds, and the position after it; the
/// marker is all lower or all upper case.
pub open spec fn meridiem(b: Seq<u8>, i: int) -> Option<(u32, int)> {
    if 0 <= i && i + 2 <= b.len() && ((b[i] == 97 && b[i + 1] == 109) || (b[i] == 65 && b[i + 1]
        == 77)) {
        Some((0u32, i + 2))
    } else if 0 <= i && i + 2 <= b.len() && ((b[i] == 112 && b[i + 1] == 109) || (b[i] == 80
        && b[i + 1] == 77)) {
        Some((12u32, i + 2))
    } else {
        None
    }
}

/// The hour of the day for a 12-hour clock reading.
pub open spec fn hour_of(h: int, delta: u32) -> u32 {
    ((if h == 12 {
        0
    } else {
        h
    }) + delta) as u32
}

/// `digits ws? (am|pm)`.
pub open spec fn quick_time_spec(b: Seq<u8>, i: int) -> Step<Time> {
    let j = digits_end(b, i);
    let k = spaces_end(b, j);
    if j == i {
        Step::Back
    } else {
        match meridiem(b, k) {
            None => Step::Back,
            Some((delta, e)) => {
                let h = digits_value(b, i, j);
                if h > 12 {
                    Step::Cut
                } else {
                    Step::Done(Time { hour: hour_of(h, delta), minute: 0 }, e as usize)
                }
            },
        }
    }
}

/// `digits ":" DD ws? (am|pm)`.
pub open spec fn proper_time_spec(b: Seq<u8>, i: int) -> Step<Time> {
    let j = digits_end(b, i);
    if j == i || j + 3 > b.len() || b[j] != 58 || !is_digit(b[j + 1]) || !is_digit(b[j + 2]) {
        Step::Back
    } else {
        match meridiem(b, spaces_end(b, j + 3)) {
            None => Step::Back,
            Some((delta, e)) => {
                let h = digits_value(b, i, j);
                let m = digits_value(b, j + 1, j + 3);
                if h > 12 || m >= 60 {
                    Step::Cut
                } else {
                    Step::Done(Time { hour: hour_of(h, delta), minute: m as u32 }, e as usize)
                }
            },
        }
    }
}

/// `proper_time | quick_time`.
pub open spec fn time_spec(b: Seq<u8>, i: int) -> Step<Time> {
    match proper_time_spec(b, i) {
        Step::Back => quick_time_spec(b, i),
        r => r,
    }
}

/// A date that the calendar arithmetic may fail to give.
pub open spec fn date_step(d: Option<Date>, e: int) -> Step<Date> {
    match d {
        Some(d) => Step::Done(d, e as usize),
        None => Step::Cut,
    }
}

/// The first weekday keyword at `i`, from Monday's long name on.
pub open spec fn weekday_match(b: Seq<u8>, i: int, k: int) -> Option<int>
    decreases 18 - k,
{
    if k >= 18 || k < 4 {
        None
    } else if keyword_at(b, i, k) {
        Some(k)
    } else {
        weekday_match(b, i, k + 1)
    }
}

/// `dd "/" mm "/" yyyy`.
pub open spec fn ddmmyyyy_spec(b: Seq<u8>, i: int) -> Step<Date> {
    if 0 <= i && i + 10 <= b.len() && is_digit(b[i]) && is_digit(b[i + 1]) && b[i + 2] == 47
        && is_digit(b[i + 3]) && is_digit(b[i + 4]) && b[i + 5] == 47 && is_digit(b[i + 6])
        && is_digit(b[i + 7]) && is_digit(b[i + 8]) && is_digit(b[i + 9]) {
        let d = digits_value(b, i, i + 2);
        let m = digits_value(b, i + 3, i + 5);
        let y = digits_value(b, i + 6, i + 10);
        if ymd_valid(y, m, d) {
            Step::Done(Date { year: y as i32, month: m as u32, day: d as u32 }, (i + 10) as usize)
        } else {
            Step::Cut
        }
    } else {
        Step::Back
    }
}

/// `today | yesterday | tmrw | tomorrow | weekday | dd/mm/yyyy`, the
/// relative forms counted from `today`; a weekday is its next occurrence
/// on or after today.
pub open spec fn date_spec(b: Seq<u8>, i: int, today: Date) -> Step<Date> {
    if keyword_at(b, i, 0) {
        Step::Done(today, (i + 5) as usize)
    } else if keyword_at(b, i, 1) {
        date_step(days_before(today, 1), i + 9)
    } else if keyword_at(b, i, 2) {
        date_step(days_after(today, 1), i + 4)
    } else if keyword_at(b, i, 3) {
        date_step(days_after(today, 1), i + 8)
    } else {
        match weekday_match(b, i, 4) {
            Some(k) => match weekday_index(today) {
                Some(t) => {
                    let w = (k - 4) / 2;
                    date_step(days_after(today, ((w + 7 - t) % 7) as u64), i + keyword(k).len())
                },
                None => Step::Cut,
            },
            None => ddmmyyyy_spec(b, i),
        }
    }
}

/// `date ws* time`.
pub open spec fn datetime_spec(b: Seq<u8>, i: int, today: Date) -> Step<DateTime> {
    match date_spec(b, i, today) {
        Step::Done(d, j) => match time_spec(b, spaces_end(b, j as int)) {
            Step::Done(t, k) => Step::Done(DateTime { date: d, time: t }, k),
            Step::Back => Step::Back,
            Step::Cut => Step::Cut,
        },
        Step::Back => Step::Back,
        Step::Cut => Step::Cut,
    }
}

pub open spec fn midnight() -> Time {
    Time { hour: 0, minute: 0 }
}

/// `datetime | date`, a bare date meaning its midnight.
pub open spec fn date_opt_time_spec(b: Seq<u8>, i: int, today: Date) -> Step<DateTime> {
    match datetime_spec(b, i, today) {
        Step::Back => match date_spec(b, i, today) {
            Step::Done(d, j) => Step::Done(DateTime { date: d, time: midnight() }, j),
            Step::Back => Step::Back,
            Step::Cut => Step::Cut,
        },
        r => r,
    }
}

/// " to " stands at `i`.
pub open spec fn to_at(b: Seq<u8>, i: int) -> bool {
    0 <= i && i + 4 <= b.len() && b[i] == 32 && b[i + 1] == 116 && b[i + 2] == 111 && b[i + 3] == 32
}

/// The whole text is one session: the first of the four forms that
/// matches, a bare time taking the date of the other end or today's.
pub open spec fn session_spec(b: Seq<u8>, today: Date) -> Option<Session> {
    let first = date_opt_time_spec(b, 0, today);
    let second_dt = |j: usize| if to_at(b, j as int) { date_opt_time_spec(b, j + 4, today) } else { Step::Back };
    let second_t = |j: usize| if to_at(b, j as int) { time_spec(b, j + 4) } else { Step::Back };
    let form1 = match first {
        Step::Done(s, j) => match second_dt(j) {
            Step::Done(e, k) => Step::Done(Session { start: s, end: e }, k),
            Step::Back => Step::Back,
            Step::Cut => Step::Cut,
        },
        Step::Back => Step::Back,
        Step::Cut => Step::Cut,
    };
    let form2 = match first {
        Step::Done(s, j) => match second_t(j) {
            Step::Done(t, k) => Step::Done(Session { start: s, end: DateTime { date: s.date, time: t } }, k),
            Step::Back => Step::Back,
            Step::Cut => Step::Cut,
        },
        Step::Back => Step::Back,
        Step::Cut => Step::Cut,
    };
    let t1 = time_spec(b, 0);
    let form3 = match t1 {
        Step::Done(t, j) => match second_dt(j) {
            Step::Done(e, k) => Step::Done(Session { start: DateTime { date: today, time: t }, end: e }, k),
            Step::Back => Step::Back,
            Step::Cut => Step::Cut,
        },
        Step::Back => Step::Back,
        Step::Cut => Step::Cut,
    };
    let form4 = match t1 {
        Step::Done(t, j) => match second_t(j) {
            Step::Done(u, k) => Step::Done(Session { start: DateTime { date: today, time: t }, end: DateTime { date: today, time: u } }, k),
            Step::Back => Step::Back,
            Step::Cut => Step::Cut,
        },
        Step::Back => Step::Back,
        Step::Cut => Step::Cut,
    };
    let chosen = match form1 {
        Step::Back => match form2 {
            Step::Back => match form3 {
                Step::Back => form4,
                r => r,
            },
            r => r,
        },
        r => r,
    };
    match chosen {
        Step::Done(s, k) => if k == b.len() { Some(s) } else { None },
        _ => None,
    }
}

/// The whole text is one date and time: `datetime`, or a bare time today,
/// or a bare date at midnight.
pub open spec fn datetime_text_spec(b: Seq<u8>, today: Date) -> Option<DateTime> {
    let chosen = match datetime_spec(b, 0, today) {
        Step::Back => match time_spec(b, 0) {
            Step::Done(t, k) => Step::Done(DateTime { date: today, time: t }, k),
            Step::Back => match date_spec(b, 0, today) {
                Step::Done(d, k) => Step::Done(DateTime { date: d, time: midnight() }, k),
                Step::Back => Step::Back,
                Step::Cut => Step::Cut,
            },
            Step::Cut => Step::Cut,
        },
        r => r,
    };
    match chosen {
        Step::Done(d, k) => if k == b.len() { Some(d) } else { None },
        _ => None,
    }
}

fn lower(c: u8) -> (r: u8)
    ensures
        r == to_lower(c),
{
    if 65 <= c && c <= 90 {
        c + 32
    } else {
        c
    }
}

fn keyword_bytes(k: usize) -> (r: Vec<u8>)
    ensures
        r@ == keyword(k as int),
{
    let r = if k == 0 {
        vec![116u8, 111, 100, 97, 121]
    } else if k == 1 {
        vec![121u8, 101, 115, 116, 101, 114, 100, 97, 121]
    } else if k == 2 {
        vec![116u8, 109, 114, 119]
    } else if k == 3 {
        vec![116u8, 111, 109, 111, 114, 114, 111, 119]
    } else if k == 4 {
        vec![109u8, 111, 110, 100, 97, 121]
    } else if k == 5 {
        vec![109u8, 111, 110]
    } else if k == 6 {
        vec![116u8, 117, 101, 115, 100, 97, 121]
    } else if k == 7 {
        vec![116u8, 117, 101]
    } else if k == 8 {
        vec![119u8, 101, 100, 110, 101, 115, 100, 97, 121]
    } else if k == 9 {
        vec![119u8, 101, 100]
    } else if k == 10 {
        vec![116u8, 104, 117, 114, 115, 100, 97, 121]
    } else if k == 11 {
        vec![116u8, 104, 117]
    } else if k == 12 {
        vec![102u8, 114, 105, 100, 97, 121]
    } else if k == 13 {
        vec![102u8, 114, 105]
    } else if k == 14 {
        vec![115u8, 97, 116, 117, 114, 100, 97, 121]
    } else if k == 15 {
        vec![115u8, 97, 116]
    } else if k == 16 {
        vec![115u8, 117, 110, 100, 97, 121]
    } else {
        vec![115u8, 117, 110]
    };
    assert(r@ =~= keyword(k as int));
    r
}

fn match_keyword(b: &[u8], i: usize, k: usize) -> (r: bool)
    ensures
        r == keyword_at(b@, i as int, k as int),
{
    let kw = keyword_bytes(k);
    if i > b.len() || b.len() - i < kw.len() {
        return false;
    }
    let mut j: usize = 0;
    while j < kw.len()
        invariant
            i + kw@.len() <= b@.len(),
            b@.len() <= usize::MAX,
            kw@ == keyword(k as int),
            j <= kw@.len(),
            forall|m: int| 0 <= m < j ==> to_lower(#[trigger] b@[i + m]) == keyword(k as int)[m],
        decreases kw@.len() - j,
    {
        assert(i + j < b@.len());
        if lower(b[i + j]) != kw[j] {
            return false;
        }
        j = j + 1;
    }
    true
}

fn skip_digits(b: &[u8], i: usize) -> (r: usize)
    requires
        i <= b@.len(),
    ensures
        r == digits_end(b@, i as int),
        i <= r <= b@.len(),
{
    let mut j = i;
    while j < b.len() && 48 <= b[j] && b[j] <= 57
        invariant
            i <= j <= b@.len(),
            digits_end(b@, i as int) == digits_end(b@, j as int),
        decreases b@.len() - j,
    {
        j = j + 1;
    }
    j
}

fn skip_spaces(b: &[u8], i: usize) -> (r: usize)
    requires
        i <= b@.len(),
    ensures
        r == spaces_end(b@, i as int),
        i <= r <= b@.len(),
{
    let mut j = i;
    while j < b.len() && (b[j] == 32 || b[j] == 9)
        invariant
            i <= j <= b@.len(),
            spaces_end(b@, i as int) == spaces_end(b@, j as int),
        decreases b@.len() - j,
    {
        j = j + 1;
    }
    j
}

proof fn lemma_digits_value_grows(b: Seq<u8>, i: int, j: int)
    requires
        i <= j < b.len(),
        is_digit(b[j]),
        digits_value(b, i, j) >= 0,
    ensures
        digits_value(b, i, j + 1) >= digits_value(b, i, j),
{
}

proof fn lemma_digits_value_nonneg(b: Seq<u8>, i: int, j: int)
    requires
        0 <= i <= j <= b.len(),
        forall|m: int| i <= m < j ==> is_digit(#[trigger] b[m]),
    ensures
        digits_value(b, i, j) >= 0,
    decreases j - i,
{
    if j > i {
        lemma_digits_value_nonneg(b, i, j - 1);
    }
}

/// The value of the digits in `[i, j)`, or 1001 when it is larger than
/// 1000.
fn capped_value(b: &[u8], i: usize, j: usize) -> (r: u64)
    requires
        i <= j <= b@.len(),
        forall|m: int| i <= m < j ==> is_digit(#[trigger] b@[m]),
    ensures
        digits_value(b@, i as int, j as int) > 1000 ==> r == 1001,
        digits_value(b@, i as int, j as int) <= 1000 ==> r == digits_value(b@, i as int, j as int),
{
    let mut v: u64 = 0;
    let mut k = i;
    while k < j
        invariant
            i <= k <= j <= b@.len(),
            forall|m: int| i <= m < j ==> is_digit(#[trigger] b@[m]),
            digits_value(b@, i as int, k as int) > 1000 ==> v == 1001,
            digits_value(b@, i as int, k as int) <= 1000 ==> v == digits_value(b@, i as int, k as int),
        decreases j - k,
    {
        proof {
            lemma_digits_value_nonneg(b@, i as int, k as int);
            lemma_digits_value_grows(b@, i as int, k as int);
        }
        if v <= 1000 {
            let nv = v * 10 + (b[k] - 48) as u64;
            v = if nv > 1000 {
                1001
            } else {
                nv
            };
        }
        k = k + 1;
    }
    v
}

fn read_meridiem(b: &[u8], i: usize) -> (r: Option<(u32, usize)>)
    requires
        i <= b@.len(),
    ensures
        r matches Some(m) ==> meridiem(b@, i as int) == Some((m.0, m.1 as int)),
        r is None ==> meridiem(b@, i as int) is None,
{
    if b.len() - i < 2 {
        return None;
    }
    if (b[i] == 97 && b[i + 1] == 109) || (b[i] == 65 && b[i + 1] == 77) {
        Some((0, i + 2))
    } else if (b[i] == 112 && b[i + 1] == 109) || (b[i] == 80 && b[i + 1] == 77) {
        Some((12, i + 2))
    } else {
        None
    }
}

proof fn lemma_digits_run(b: Seq<u8>, i: int)
    requires
        0 <= i <= b.len(),
    ensures
        i <= digits_end(b, i) <= b.len(),
        forall|m: int| i <= m < digits_end(b, i) ==> is_digit(#[trigger] b[m]),
    decreases b.len() - i,
{
    if i < b.len() && is_digit(b[i]) {
        lemma_digits_run(b, i + 1);
    }
}

fn quick_time(b: &[u8], i: usize) -> (r: Step<Time>)
    requires
        i <= b@.len(),
    ensures
        r == quick_time_spec(b@, i as int),
        r matches Step::Done(_, e) ==> e <= b@.len(),
{
    let j = skip_digits(b, i);
    let k = skip_spaces(b, j);
    if j == i {
        return Step::Back;
    }
    match read_meridiem(b, k) {
        None => Step::Back,
        Some((delta, e)) => {
            proof {
                lemma_digits_run(b@, i as int);
            }
            let h = capped_value(b, i, j);
            if h > 12 {
                Step::Cut
            } else {
                let hh: u32 = if h == 12 {
                    0
                } else {
                    h as u32
                };
                Step::Done(Time { hour: hh + delta, minute: 0 }, e)
            }
        },
    }
}

fn proper_time(b: &[u8], i: usize) -> (r: Step<Time>)
    requires
        i <= b@.len(),
    ensures
        r == proper_time_spec(b@, i as int),
        r matches Step::Done(_, e) ==> e <= b@.len(),
{
    let j = skip_digits(b, i);
    if j == i || b.len() - j < 3 || b[j] != 58 || !(48 <= b[j + 1] && b[j + 1] <= 57) || !(48
        <= b[j + 2] && b[j + 2] <= 57) {
        return Step::Back;
    }
    let k = skip_spaces(b, j + 3);
    match read_meridiem(b, k) {
        None => Step::Back,
        Some((delta, e)) => {
            proof {
                lemma_digits_run(b@, i as int);
            }
            let h = capped_value(b, i, j);
            let m = capped_value(b, j + 1, j + 3);
            if h > 12 || m >= 60 {
                Step::Cut
            } else {
                let hh: u32 = if h == 12 {
                    0
                } else {
                    h as u32
                };
                Step::Done(Time { hour: hh + delta, minute: m as u32 }, e)
            }
        },
    }
}

fn time(b: &[u8], i: usize) -> (r: Step<Time>)
    requires
        i <= b@.len(),
    ensures
        r == time_spec(b@, i as int),
        r matches Step::Done(_, e) ==> e <= b@.len(),
{
    match proper_time(b, i) {
        Step::Back => quick_time(b, i),
        r => r,
    }
}

fn ddmmyyyy(b: &[u8], i: usize) -> (r: Step<Date>)
    requires
        i <= b@.len(),
    ensures
        r == ddmmyyyy_spec(b@, i as int),
        r matches Step::Done(_, e) ==> e <= b@.len(),
{
    if b.len() - i < 10 {
        return Step::Back;
    }
    let dig = |c: u8| -> (r: bool)
        ensures
            r == is_digit(c),
        { 48 <= c && c <= 57 };
    if !(dig(b[i]) && dig(b[i + 1]) && b[i + 2] == 47 && dig(b[i + 3]) && dig(b[i + 4]) && b[i
        + 5] == 47 && dig(b[i + 6]) && dig(b[i + 7]) && dig(b[i + 8]) && dig(b[i + 9])) {
        return Step::Back;
    }
    let d = capped_value(b, i, i + 2);
    let m = capped_value(b, i + 3, i + 5);
    let y4 = (b[i + 6] - 48) as i32 * 1000 + (b[i + 7] - 48) as i32 * 100 + (b[i + 8] - 48) as i32
        * 10 + (b[i + 9] - 48) as i32;
    proof {
        let bs = b@;
        let ii = i as int;
        assert(digits_value(bs, ii + 6, ii + 10) == (bs[ii + 6] - 48) * 1000 + (bs[ii + 7] - 48)
            * 100 + (bs[ii + 8] - 48) * 10 + (bs[ii + 9] - 48)) by {
            assert(digits_value(bs, ii + 6, ii + 6) == 0);
            assert(digits_value(bs, ii + 6, ii + 7) == bs[ii + 6] - 48);
            assert(digits_value(bs, ii + 6, ii + 8) == (bs[ii + 6] - 48) * 10 + (bs[ii + 7] - 48));
            assert(digits_value(bs, ii + 6, ii + 9) == ((bs[ii + 6] - 48) * 10 + (bs[ii + 7] - 48))
                * 10 + (bs[ii + 8] - 48));
        }
        assert(digits_value(bs, ii, ii + 2) <= 99) by {
            assert(digits_value(bs, ii, ii) == 0);
            assert(digits_value(bs, ii, ii + 1) == bs[ii] - 48);
        }
        assert(digits_value(bs, ii + 3, ii + 5) <= 99) by {
            assert(digits_value(bs, ii + 3, ii + 3) == 0);
            assert(digits_value(bs, ii + 3, ii + 4) == bs[ii + 3] - 48);
        }
    }
    match from_ymd(y4, m as u32, d as u32) {
        Some(date) => Step::Done(date, i + 10),
        None => Step::Cut,
    }
}

fn find_weekday(b: &[u8], i: usize) -> (r: Option<usize>)
    ensures
        r matches Some(k) ==> weekday_match(b@, i as int, 4) == Some(k as int) && 4 <= k < 18 && keyword_at(b@, i as int, k as int),
        r is None ==> weekday_match(b@, i as int, 4) is None,
{
    let mut k: usize = 4;
    while k < 18
        invariant
            4 <= k <= 18,
            weekday_match(b@, i as int, 4) == weekday_match(b@, i as int, k as int),
        decreases 18 - k,
    {
        if match_keyword(b, i, k) {
            return Some(k);
        }
        k = k + 1;
    }
    None
}

fn date_of(d: Option<Date>, e: usize) -> (r: Step<Date>)
    ensures
        r == date_step(d, e as int),
{
    match d {
        Some(d) => Step::Done(d, e),
        None => Step::Cut,
    }
}

fn date(b: &[u8], i: usize, today: Date) -> (r: Step<Date>)
    requires
        i <= b@.len(),
    ensures
        r == date_spec(b@, i as int, today),
        r matches Step::Done(_, e) ==> e <= b@.len(),
{
    let n = b.len();
    assert(n == b@.len());
    assert(keyword(0).len() == 5 && keyword(1).len() == 9 && keyword(2).len() == 4 && keyword(3).len() == 8);
    if match_keyword(b, i, 0) {
        return Step::Done(today, i + 5);
    }
    if match_keyword(b, i, 1) {
        return date_of(sub_days(today, 1), i + 9);
    }
    if match_keyword(b, i, 2) {
        return date_of(add_days(today, 1), i + 4);
    }
    if match_keyword(b, i, 3) {
        return date_of(add_days(today, 1), i + 8);
    }
    match find_weekday(b, i) {
        Some(k) => match weekday_of(today) {
            Some(t) => {
                let w = ((k - 4) / 2) as u64;
                let kw = keyword_bytes(k);
                date_of(add_days(today, (w + 7 - t as u64) % 7), i + kw.len())
            },
            None => Step::Cut,
        },
        None => ddmmyyyy(b, i),
    }
}

fn datetime(b: &[u8], i: usize, today: Date) -> (r: Step<DateTime>)
    requires
        i <= b@.len(),
    ensures
        r == datetime_spec(b@, i as int, today),
        r matches Step::Done(_, e) ==> e <= b@.len(),
{
    match date(b, i, today) {
        Step::Done(d, j) => {
            let k = skip_spaces(b, j);
            match time(b, k) {
                Step::Done(t, e) => Step::Done(DateTime { date: d, time: t }, e),
                Step::Back => Step::Back,
                Step::Cut => Step::Cut,
            }
        },
        Step::Back => Step::Back,
        Step::Cut => Step::Cut,
    }
}

fn date_opt_time(b: &[u8], i: usize, today: Date) -> (r: Step<DateTime>)
    requires
        i <= b@.len(),
    ensures
        r == date_opt_time_spec(b@, i as int, today),
        r matches Step::Done(_, e) ==> e <= b@.len(),
{
    match datetime(b, i, today) {
        Step::Back => match date(b, i, today) {
            Step::Done(d, j) => Step::Done(DateTime { date: d, time: Time { hour: 0, minute: 0 } }, j),
            Step::Back => Step::Back,
            Step::Cut => Step::Cut,
        },
        r => r,
    }
}

fn match_to(b: &[u8], i: usize) -> (r: bool)
    requires
        i <= b@.len(),
    ensures
        r == to_at(b@, i as int),
{
    b.len() - i >= 4 && b[i] == 32 && b[i + 1] == 116 && b[i + 2] == 111 && b[i + 3] == 32
}

/// Reads a session: `dt to dt`, `dt to time`, `time to dt` or
/// `time to time`, where a date alone means its midnight and a bare time
/// takes the other end's date, or `today`'s.
pub fn parse_session(s: &str, today: Date) -> (r: Result<Session, ParseError>)
    ensures
        r matches Ok(v) ==> session_spec(s.spec_bytes(), today) == Some(v),
        r is Err ==> session_spec(s.spec_bytes(), today) is None,
{
    let b = s.as_bytes();
    let n = b.len();
    let first = date_opt_time(b, 0, today);
    let form1 = match first {
        Step::Done(st, j) => {
            if match_to(b, j) {
                match date_opt_time(b, j + 4, today) {
                    Step::Done(e, k) => Step::Done(Session { start: st, end: e }, k),
                    Step::Back => Step::Back,
                    Step::Cut => Step::Cut,
                }
            } else {
                Step::Back
            }
        },
        Step::Back => Step::Back,
        Step::Cut => Step::Cut,
    };
    let chosen = match form1 {
        Step::Back => {
            let form2 = match first {
                Step::Done(st, j) => {
                    if match_to(b, j) {
                        match time(b, j + 4) {
                            Step::Done(t, k) => Step::Done(Session { start: st, end: DateTime { date: st.date, time: t } }, k),
                            Step::Back => Step::Back,
                            Step::Cut => Step::Cut,
                        }
                    } else {
                        Step::Back
                    }
                },
                Step::Back => Step::Back,
                Step::Cut => Step::Cut,
            };
            match form2 {
                Step::Back => {
                    let t1 = time(b, 0);
                    let form3 = match t1 {
                        Step::Done(t, j) => {
                            if match_to(b, j) {
                                match date_opt_time(b, j + 4, today) {
                                    Step::Done(e, k) => Step::Done(Session { start: DateTime { date: today, time: t }, end: e }, k),
                                    Step::Back => Step::Back,
                                    Step::Cut => Step::Cut,
                                }
                            } else {
                                Step::Back
                            }
                        },
                        Step::Back => Step::Back,
                        Step::Cut => Step::Cut,
                    };
                    match form3 {
                        Step::Back => match t1 {
                            Step::Done(t, j) => {
                                if match_to(b, j) {
                                    match time(b, j + 4) {
                                        Step::Done(u, k) => Step::Done(Session { start: DateTime { date: today, time: t }, end: DateTime { date: today, time: u } }, k),
                                        Step::Back => Step::Back,
                                        Step::Cut => Step::Cut,
                                    }
                                } else {
                                    Step::Back
                                }
                            },
                            Step::Back => Step::Back,
                            Step::Cut => Step::Cut,
                        },
                        r => r,
                    }
                },
                r => r,
            }
        },
        r => r,
    };
    match chosen {
        Step::Done(v, k) => {
            if k == n {
                Ok(v)
            } else {
                Err(ParseError { offset: k })
            }
        },
        _ => Err(ParseError { offset: 0 }),
    }
}

/// Reads a date and time: `date time`, a bare time today, or a bare date
/// at midnight.
pub fn parse_datetime(s: &str, today: Date) -> (r: Result<DateTime, ParseError>)
    ensures
        r matches Ok(v) ==> datetime_text_spec(s.spec_bytes(), today) == Some(v),
        r is Err ==> datetime_text_spec(s.spec_bytes(), today) is None,
{
    let b = s.as_bytes();
    let n = b.len();
    let chosen = match datetime(b, 0, today) {
        Step::Back => match time(b, 0) {
            Step::Done(t, k) => Step::Done(DateTime { date: today, time: t }, k),
            Step::Back => match date(b, 0, today) {
                Step::Done(d, k) => Step::Done(DateTime { date: d, time: Time { hour: 0, minute: 0 } }, k),
                Step::Back => Step::Back,
                Step::Cut => Step::Cut,
            },
            Step::Cut => Step::Cut,
        },
        r => r,
    };
    match chosen {
        Step::Done(v, k) => {
            if k == n {
                Ok(v)
            } else {
                Err(ParseError { offset: k })
            }
        },
        _ => Err(ParseError { offset: 0 }),
    }
}

} // verus!
