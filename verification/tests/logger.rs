use ivy_core::logger::{Level, LevelFilter};
use ivy_core::Logger;

#[test]
fn default_logger_shows_locations_up_to_debug() {
    let logger = Logger::default();
    assert!(logger.show_location);
    assert_eq!(logger.max_level, LevelFilter::Debug);
}

#[test]
fn record_with_location() {
    let logger = Logger::default();
    let line = logger.format_record(Level::Info, Some("src/main.rs"), Some(42), "started");
    assert_eq!(line, "\x1B[1;34mINFO\x1B[0;0m src/main.rs:42 - started");
}

#[test]
fn record_with_unknown_location() {
    let logger = Logger::default();
    let line = logger.format_record(Level::Error, None, None, "boom");
    assert_eq!(line, "\x1B[1;31mERROR\x1B[0;0m unknown:0 - boom");
}

#[test]
fn record_without_location() {
    let logger = Logger { show_location: false, max_level: LevelFilter::Trace };
    assert_eq!(
        logger.format_record(Level::Warn, Some("a.rs"), Some(1), "careful"),
        "\x1B[1;33mWARN\x1B[0;0m - careful"
    );
    assert_eq!(logger.format_record(Level::Debug, None, None, "x"), "\x1B[1;35mDEBUG\x1B[0;0m - x");
    assert_eq!(logger.format_record(Level::Trace, None, None, ""), "\x1B[1;36mTRACE\x1B[0;0m - ");
}

#[test]
fn line_numbers_are_written_in_decimal() {
    let logger = Logger::default();
    assert_eq!(
        logger.format_record(Level::Info, Some("f"), Some(4294967295), "m"),
        "\x1B[1;34mINFO\x1B[0;0m f:4294967295 - m"
    );
    assert_eq!(logger.format_record(Level::Info, Some("f"), Some(100), "m"), "\x1B[1;34mINFO\x1B[0;0m f:100 - m");
    assert_eq!(logger.format_record(Level::Info, Some("f"), Some(7), "m"), "\x1B[1;34mINFO\x1B[0;0m f:7 - m");
}

#[test]
fn only_errors_go_to_the_output_stream() {
    assert!(!Logger::writes_to_stderr(Level::Error));
    assert!(Logger::writes_to_stderr(Level::Warn));
    assert!(Logger::writes_to_stderr(Level::Info));
    assert!(Logger::writes_to_stderr(Level::Debug));
    assert!(Logger::writes_to_stderr(Level::Trace));
}
