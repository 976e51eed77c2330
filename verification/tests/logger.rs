use repo2markdown::logger::{Logger, Verbosity};

#[test]
fn default_logger_is_quiet() {
    let logger = Logger::default();
    assert_eq!(logger, Logger::new(Verbosity::Quiet));
    assert_eq!(logger.warn("something"), None);
}

#[test]
fn normal_logger_reports_the_message() {
    let logger = Logger::new(Verbosity::Normal);
    assert_eq!(logger.warn("careful"), Some(String::from("careful")));
}
