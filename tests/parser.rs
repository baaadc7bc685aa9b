use grus::datetime::{Date, DateTime, Session, Time};
use grus::parser::{parse_datetime, parse_session};

fn wed() -> Date {
    Date { year: 2024, month: 5, day: 15 }
}

fn at(date: Date, hour: u32, minute: u32) -> DateTime {
    DateTime { date, time: Time { hour, minute } }
}

#[test]
fn session_weekday_quick_times() {
    let s = parse_session("mon 3pm to 5pm", wed()).unwrap();
    let mon = Date { year: 2024, month: 5, day: 20 };
    assert_eq!(s, Session { start: at(mon, 15, 0), end: at(mon, 17, 0) });
}

#[test]
fn session_full_dates() {
    let s = parse_session("01/04/2025 2:00pm to 01/04/2025 3:30pm", wed()).unwrap();
    let d = Date { year: 2025, month: 4, day: 1 };
    assert_eq!(s, Session { start: at(d, 14, 0), end: at(d, 15, 30) });
}

#[test]
fn session_times_today() {
    let s = parse_session("9am to 12pm", wed()).unwrap();
    assert_eq!(s, Session { start: at(wed(), 9, 0), end: at(wed(), 12, 0) });
    let s = parse_session("12am to tomorrow 9:15AM", wed()).unwrap();
    assert_eq!(s.start, at(wed(), 0, 0));
    assert_eq!(s.end, at(Date { year: 2024, month: 5, day: 16 }, 9, 15));
}

#[test]
fn session_dates_alone_are_midnight() {
    let s = parse_session("yesterday to TODAY", wed()).unwrap();
    assert_eq!(s.start, at(Date { year: 2024, month: 5, day: 14 }, 0, 0));
    assert_eq!(s.end, at(wed(), 0, 0));
    let s = parse_session("Wednesday to sunday", wed()).unwrap();
    assert_eq!(s.start, at(wed(), 0, 0));
    assert_eq!(s.end, at(Date { year: 2024, month: 5, day: 19 }, 0, 0));
}

#[test]
fn session_rejects_bad_input() {
    assert!(parse_session("mon 13pm to 5pm", wed()).is_err());
    assert!(parse_session("mon 3pm", wed()).is_err());
    assert!(parse_session("31/02/2024 to today", wed()).is_err());
    assert!(parse_session("3pm to 5pm extra", wed()).is_err());
    assert!(parse_session("1:75pm to 2pm", wed()).is_err());
}

#[test]
fn datetime_forms() {
    assert_eq!(parse_datetime("tmrw 8pm", wed()).unwrap(), at(Date { year: 2024, month: 5, day: 16 }, 20, 0));
    assert_eq!(parse_datetime("7:05 am", wed()).unwrap(), at(wed(), 7, 5));
    assert_eq!(parse_datetime("29/02/2024", wed()).unwrap(), at(Date { year: 2024, month: 2, day: 29 }, 0, 0));
    assert!(parse_datetime("29/02/2023", wed()).is_err());
    assert!(parse_datetime("", wed()).is_err());
}
