use packable::logger::{
    LevelFilter, LoggerConfig, LoggerConfigBuilder, LoggerOutputConfigBuilder,
    DEFAULT_LEVEL_WIDTH, DEFAULT_TARGET_WIDTH, LOGGER_STDOUT_NAME,
};

#[test]
fn output_defaults() {
    let output = LoggerOutputConfigBuilder::new().finish();
    assert_eq!(output.name(), LOGGER_STDOUT_NAME);
    assert_eq!(output.name(), "stdout");
    assert_eq!(output.level_filter(), LevelFilter::Info);
    assert!(output.target_filters().is_empty());
    assert!(output.target_exclusions().is_empty());
    assert!(!output.color_enabled());
}

#[test]
fn output_settings_and_lower_case() {
    let output = LoggerOutputConfigBuilder::new()
        .name("file.log")
        .level_filter(LevelFilter::Debug)
        .target_filters(&["Gossip", "STORAGE"])
        .target_exclusions(&["Noisy"])
        .color_enabled(true)
        .finish();
    assert_eq!(output.name(), "file.log");
    assert_eq!(output.level_filter(), LevelFilter::Debug);
    assert_eq!(output.target_filters(), ["gossip".to_owned(), "storage".to_owned()]);
    assert_eq!(output.target_exclusions(), ["noisy".to_owned()]);
    assert!(output.color_enabled());
}

#[test]
fn config_defaults() {
    let config = LoggerConfig::default();
    assert_eq!(config.target_width(), DEFAULT_TARGET_WIDTH);
    assert_eq!(config.target_width(), 42);
    assert_eq!(config.level_width(), DEFAULT_LEVEL_WIDTH);
    assert_eq!(config.level_width(), 5);
    assert!(config.outputs().is_empty());
    let config = LoggerConfig::build().finish();
    assert_eq!(config.target_width(), 42);
    assert!(config.outputs().is_empty());
}

#[test]
fn config_widths_and_outputs() {
    let config = LoggerConfig::build()
        .with_target_width(10)
        .with_level_width(3)
        .with_output(LoggerOutputConfigBuilder::new().name("a"))
        .with_output(LoggerOutputConfigBuilder::new().name("b").level_filter(LevelFilter::Warn))
        .finish();
    assert_eq!(config.target_width(), 10);
    assert_eq!(config.level_width(), 3);
    assert_eq!(config.outputs().len(), 2);
    assert_eq!(config.outputs()[0].name(), "a");
    assert_eq!(config.outputs()[0].level_filter(), LevelFilter::Info);
    assert_eq!(config.outputs()[1].name(), "b");
    assert_eq!(config.outputs()[1].level_filter(), LevelFilter::Warn);
}

#[test]
fn level_sets_the_first_output_of_the_name() {
    let mut builder = LoggerConfigBuilder::default()
        .with_output(LoggerOutputConfigBuilder::new().name("a"))
        .with_output(LoggerOutputConfigBuilder::new().name("stdout"))
        .with_output(LoggerOutputConfigBuilder::new())
        .with_output(LoggerOutputConfigBuilder::new().name("stdout"));
    builder.level("stdout", LevelFilter::Trace);
    builder.level("missing", LevelFilter::Off);
    let config = builder.finish();
    let levels: Vec<LevelFilter> = config.outputs().iter().map(|o| o.level_filter()).collect();
    assert_eq!(
        levels,
        vec![LevelFilter::Info, LevelFilter::Trace, LevelFilter::Info, LevelFilter::Info]
    );
}

#[test]
fn level_without_outputs_changes_nothing() {
    let mut builder = LoggerConfigBuilder::default();
    builder.level("stdout", LevelFilter::Trace);
    assert!(builder.finish().outputs().is_empty());
}
