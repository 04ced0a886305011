use hitest::args::{normalize_log_level, RunArgs};

#[test]
fn log_level_words_and_numbers() {
    for (word, level) in [
        ("1", "error"),
        ("error", "error"),
        ("2", "warn"),
        ("warn", "warn"),
        ("4", "debug"),
        ("debug", "debug"),
        ("3", "info"),
        ("info", "info"),
        ("", "info"),
        ("trace", "info"),
        ("ERROR", "info"),
        ("11", "info"),
    ] {
        assert_eq!(normalize_log_level(word), level, "{:?}", word);
    }
}

#[test]
fn run_args_keep_what_the_command_line_gave() {
    let args = RunArgs::from_parts(
        "cases.toml".into(),
        "libs.toml".into(),
        Some("4".into()),
        Some("only".into()),
        true,
    );
    assert_eq!(args.test_cfg, "cases.toml");
    assert_eq!(args.libs_cfg, "libs.toml");
    assert_eq!(args.log_lvl, "debug");
    assert_eq!(args.debug_test.as_deref(), Some("only"));
    assert!(args.serial);
    let args = RunArgs::from_parts("c".into(), "l".into(), None, None, false);
    assert_eq!(args.log_lvl, "info");
    assert_eq!(args.debug_test, None);
    assert!(!args.serial);
}
