use minesweeper::view::{format_elapsed, TimeEvent, WinView};

#[test]
fn seconds_below_a_minute() {
    assert_eq!(format_elapsed(0), "0 seconds");
    assert_eq!(format_elapsed(42), "42 seconds");
    assert_eq!(format_elapsed(59), "59 seconds");
}

#[test]
fn minutes_below_an_hour() {
    assert_eq!(format_elapsed(60), "1 minute(s) 0 seconds");
    assert_eq!(format_elapsed(125), "2 minute(s) 5 seconds");
    assert_eq!(format_elapsed(3599), "59 minute(s) 59 seconds");
}

#[test]
fn whole_hours_beyond() {
    assert_eq!(format_elapsed(3600), "1 hours");
    assert_eq!(format_elapsed(7322), "2 hours");
}

#[test]
fn win_view_formats_its_duration() {
    let view = WinView::new("Jan  1 / 2024 12:00".to_owned(), 95);
    assert_eq!(view.date, "Jan  1 / 2024 12:00");
    assert_eq!(view.duration, "1 minute(s) 35 seconds");
}

#[test]
fn time_event_carries_formatted_duration() {
    let event = TimeEvent::of_seconds(61);
    assert_eq!(event.duration, "1 minute(s) 1 seconds");
}
