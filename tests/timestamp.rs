use task_tracker_lib::{Date, DateTime, Time};

fn dt(year: u16, month: u8, day: u8, hour: u8, minute: u8, second: u8) -> DateTime {
    DateTime::new(Date::new(year, month, day), Time::new(hour, minute, second))
}

#[test]
fn formats_with_zero_padding() {
    assert_eq!(dt(2024, 1, 2, 3, 4, 5).to_string(), "2024/01/02 03:04:05");
    assert_eq!(dt(7, 12, 31, 23, 59, 59).to_string(), "0007/12/31 23:59:59");
    assert_eq!(dt(65535, 255, 0, 0, 0, 100).to_string(), "65535/255/00 00:00:100");
}

#[test]
fn parses_canonical_text() {
    assert_eq!(DateTime::from_text("2024/01/02 03:04:05"), dt(2024, 1, 2, 3, 4, 5));
    assert_eq!(DateTime::from_text("  1999/12/31\t23:59:58  extra"), dt(1999, 12, 31, 23, 59, 58));
}

#[test]
fn malformed_fields_read_as_zero() {
    assert_eq!(DateTime::from_text(""), dt(0, 0, 0, 0, 0, 0));
    assert_eq!(DateTime::from_text("2024/xx"), dt(2024, 0, 0, 0, 0, 0));
    assert_eq!(DateTime::from_text("2024/300/5 7"), dt(2024, 0, 5, 7, 0, 0));
    assert_eq!(DateTime::from_text("+12/+3/4 1:2:3"), dt(12, 3, 4, 1, 2, 3));
    assert_eq!(DateTime::from_text("70000/1/1 -1:2:3"), dt(0, 1, 1, 0, 2, 3));
}

#[test]
fn format_then_parse_gives_the_same_timestamp() {
    for t in [dt(2024, 1, 2, 3, 4, 5), dt(0, 0, 0, 0, 0, 0), dt(65535, 255, 255, 255, 255, 255)] {
        assert_eq!(DateTime::from_text(&t.to_string()), t);
    }
}
