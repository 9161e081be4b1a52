use styled_log::{format_clock, format_timestamp, get_timestamp, LocalTime, LogInterval, LogLevel, Logger};

fn at(year: i32, hour: u32) -> LocalTime {
    LocalTime { year, month: 3, day: 5, hour, minute: 7, second: 9, nanosecond: 123_456_789 }
}

#[test]
fn bucket_for_each_interval() {
    let t = at(2024, 13);
    assert_eq!(LogInterval::OneHour.get_file_timestamp(&t), "2024-03-05-13h-14h");
    assert_eq!(LogInterval::ThreeHour.get_file_timestamp(&t), "2024-03-05-12h-15h");
    assert_eq!(LogInterval::SixHour.get_file_timestamp(&t), "2024-03-05-12h-18h");
    assert_eq!(LogInterval::NineHour.get_file_timestamp(&t), "2024-03-05-09h-18h");
    assert_eq!(LogInterval::TwelveHour.get_file_timestamp(&t), "2024-03-05-12h-00h");
    assert_eq!(LogInterval::OneDay.get_file_timestamp(&t), "2024-03-05-00h-24h");
}

#[test]
fn bucket_wraps_past_midnight() {
    assert_eq!(LogInterval::OneHour.get_file_timestamp(&at(2024, 23)), "2024-03-05-23h-00h");
    assert_eq!(LogInterval::NineHour.get_file_timestamp(&at(2024, 20)), "2024-03-05-18h-03h");
    assert_eq!(LogInterval::TwelveHour.get_file_timestamp(&at(2024, 0)), "2024-03-05-00h-12h");
}

#[test]
fn bucket_one_hour_same_hour() {
    let start = LocalTime { minute: 0, second: 0, ..at(2024, 10) };
    let later = LocalTime { minute: 59, second: 59, ..at(2024, 10) };
    let next = LocalTime { minute: 0, second: 0, ..at(2024, 11) };
    let b = LogInterval::OneHour.get_file_timestamp(&start);
    assert_eq!(b, LogInterval::OneHour.get_file_timestamp(&later));
    assert_ne!(b, LogInterval::OneHour.get_file_timestamp(&next));
}

#[test]
fn bucket_three_hours() {
    let b0 = LogInterval::ThreeHour.get_file_timestamp(&at(2024, 0));
    assert_eq!(b0, LogInterval::ThreeHour.get_file_timestamp(&at(2024, 1)));
    assert_eq!(b0, LogInterval::ThreeHour.get_file_timestamp(&at(2024, 2)));
    assert_ne!(b0, LogInterval::ThreeHour.get_file_timestamp(&at(2024, 3)));
    assert_eq!(b0, "2024-03-05-00h-03h");
}

#[test]
fn bucket_year_forms() {
    assert_eq!(LogInterval::OneDay.get_file_timestamp(&at(987, 1)), "0987-03-05-00h-24h");
    assert_eq!(LogInterval::OneDay.get_file_timestamp(&at(12345, 1)), "+12345-03-05-00h-24h");
    assert_eq!(LogInterval::OneDay.get_file_timestamp(&at(-5, 1)), "-0005-03-05-00h-24h");
}

#[test]
fn clock_and_timestamp_text() {
    let t = at(2024, 13);
    assert_eq!(format_clock(&t), "13:07:09");
    assert_eq!(format_timestamp(&t), "13:07:09.123");
    let leap = LocalTime { second: 59, nanosecond: 1_500_000_000, ..t };
    assert_eq!(format_timestamp(&leap), "13:07:59.500");
}

#[test]
fn timestamp_now_has_its_shape() {
    let s = get_timestamp();
    let chars: Vec<char> = s.chars().collect();
    assert_eq!(chars.len(), 12);
    assert_eq!(chars[2], ':');
    assert_eq!(chars[5], ':');
    assert_eq!(chars[8], '.');
}

#[test]
fn level_from_symbols() {
    assert_eq!(LogLevel::from_message("x ℹ y"), Some(LogLevel::Info));
    assert_eq!(LogLevel::from_message("⚠"), Some(LogLevel::Warn));
    assert_eq!(LogLevel::from_message("\x1b[91m✖\x1b[0m"), Some(LogLevel::Error));
    assert_eq!(LogLevel::from_message("✔ done"), Some(LogLevel::Success));
    assert_eq!(LogLevel::from_message("⁂"), Some(LogLevel::Debug));
    assert_eq!(LogLevel::from_message("no symbol"), None);
    assert_eq!(LogLevel::from_message("✖ then ℹ"), Some(LogLevel::Info));
}

#[test]
fn error_line_follows_allow_set() {
    let mut logger = Logger::new("Logs".to_string(), LogInterval::OneHour);
    let t = at(2024, 13);
    let msg = "\x1b[91m✖ \x1b[0m\x1b[2m13:07:09.123\x1b[0m Database \x1b[31mfailed\x1b[0m";
    let e = logger.entry_at(msg, &t).unwrap();
    assert_eq!(e.file_name, "2024-03-05-13h-14h.log");
    assert_eq!(e.line, "✖ 13:07:09.123 Database failed");

    logger.clear_log_levels();
    assert!(logger.entry_at(msg, &t).is_none());
    logger.add_log_level(LogLevel::Debug);
    logger.add_log_level(LogLevel::Warn);
    assert!(logger.entry_at(msg, &t).is_none());
    logger.add_log_level(LogLevel::Error);
    let e = logger.entry_at(msg, &t).unwrap();
    assert_eq!(e.line, "✖ 13:07:09.123 Database failed");
}

#[test]
fn message_without_symbol_is_dropped() {
    let logger = Logger::new("Logs".to_string(), LogInterval::OneDay);
    assert!(logger.entry_at("nothing to see", &at(2024, 4)).is_none());
    assert!(logger.log("nothing to see").is_none());
}

#[test]
fn log_now_names_a_bucket_file() {
    let logger = Logger::new("Logs".to_string(), LogInterval::SixHour);
    assert_eq!(logger.base_path(), "Logs");
    let e = logger.log("\x1b[96mℹ\x1b[0m Server Starting").unwrap();
    assert!(e.file_name.ends_with("h.log"));
    assert_eq!(e.line, "ℹ Server Starting");
}
