use dependency_injector::logging::{builder, LogFormat, LogLevel, LoggingBuilder};

#[test]
fn test_builder_defaults() {
    let builder = LoggingBuilder::default();
    assert_eq!(builder.level(), LogLevel::Debug);
    assert_eq!(builder.format(), LogFormat::Json);
    assert!(builder.target().is_none());
}

#[test]
fn test_builder_chain() {
    let builder = LoggingBuilder::new()
        .trace()
        .pretty()
        .with_file()
        .with_line_number()
        .di_only();

    assert_eq!(builder.level(), LogLevel::Trace);
    assert_eq!(builder.format(), LogFormat::Pretty);
    assert!(builder.includes_file());
    assert!(builder.includes_line_number());
    assert_eq!(builder.target(), Some("dependency_injector"));
}

#[test]
fn filter_directive_with_and_without_target() {
    assert_eq!(builder().filter_directive(), "DEBUG");
    assert_eq!(builder().info().filter_directive(), "INFO");
    assert_eq!(
        builder().warn().di_only().filter_directive(),
        "dependency_injector=WARN"
    );
    assert_eq!(
        builder()
            .error()
            .with_target_filter("my_app")
            .filter_directive(),
        "my_app=ERROR"
    );
    assert_eq!(
        builder().with_level(LogLevel::Trace).filter_directive(),
        "TRACE"
    );
}

#[test]
fn setters_touch_only_their_setting() {
    let b = builder().with_thread_ids().with_thread_names().compact();
    assert!(b.includes_thread_ids());
    assert!(b.includes_thread_names());
    assert!(!b.includes_file());
    assert!(!b.includes_line_number());
    assert_eq!(b.format(), LogFormat::Compact);
    assert_eq!(b.level(), LogLevel::Debug);
    let j = b.json().debug();
    assert_eq!(j.format(), LogFormat::Json);
    assert_eq!(LogFormat::default(), LogFormat::Json);
    assert_eq!(LogLevel::Warn.as_str(), "WARN");
}
