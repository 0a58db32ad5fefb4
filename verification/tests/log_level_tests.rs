use rs_loged::log_level::{log_levels_to_bitmask, mask_matches, LogLevel};

#[test]
fn test_log_levels_to_bitmask() {
    let b = log_levels_to_bitmask(&[]);
    assert_eq!(b, 0);
    let b = log_levels_to_bitmask(&[LogLevel::Fatal]);
    assert_eq!(b, 1);
    let b = log_levels_to_bitmask(&[LogLevel::Error]);
    assert_eq!(b, 2);
    let b = log_levels_to_bitmask(&[LogLevel::Warning]);
    assert_eq!(b, 4);
    let b = log_levels_to_bitmask(&[LogLevel::Notice]);
    assert_eq!(b, 8);
    let b = log_levels_to_bitmask(&[LogLevel::Info]);
    assert_eq!(b, 16);
    let b = log_levels_to_bitmask(&[LogLevel::Debug]);
    assert_eq!(b, 32);
    let b = log_levels_to_bitmask(&[LogLevel::Trace]);
    assert_eq!(b, 64);
    let b = log_levels_to_bitmask(&[
        LogLevel::Fatal,
        LogLevel::Error,
        LogLevel::Warning,
        LogLevel::Notice,
        LogLevel::Info,
        LogLevel::Debug,
        LogLevel::Trace,
    ]);
    assert_eq!(b, 127);
    let b = log_levels_to_bitmask(&[
        LogLevel::Fatal,
        LogLevel::Error,
        LogLevel::Warning,
        LogLevel::Notice,
    ]);
    assert_eq!(b, 15);
}

#[test]
fn test_mask_matches_membership() {
    let mask = log_levels_to_bitmask(&[LogLevel::Fatal, LogLevel::Info]);
    assert!(mask_matches(mask, LogLevel::Fatal));
    assert!(mask_matches(mask, LogLevel::Info));
    assert!(!mask_matches(mask, LogLevel::Error));
    assert!(!mask_matches(mask, LogLevel::Warning));
    assert!(!mask_matches(mask, LogLevel::Notice));
    assert!(!mask_matches(mask, LogLevel::Debug));
    assert!(!mask_matches(mask, LogLevel::Trace));
}

#[test]
fn test_mask_empty_and_full() {
    assert_eq!(log_levels_to_bitmask(&[]), 0);
    let all = [
        LogLevel::Fatal,
        LogLevel::Error,
        LogLevel::Warning,
        LogLevel::Notice,
        LogLevel::Info,
        LogLevel::Debug,
        LogLevel::Trace,
    ];
    assert_eq!(log_levels_to_bitmask(&all), 127);
    for lvl in all {
        assert!(mask_matches(127, lvl));
        assert!(!mask_matches(0, lvl));
    }
}

#[test]
fn test_duplicates_set_one_bit() {
    let b = log_levels_to_bitmask(&[LogLevel::Error, LogLevel::Error, LogLevel::Error]);
    assert_eq!(b, 2);
}

#[test]
fn test_default_level() {
    assert_eq!(LogLevel::default(), LogLevel::Debug);
}

#[test]
fn test_level_labels_and_colors() {
    assert_eq!(LogLevel::Info.to_str(), "INFO   ");
    assert_eq!(LogLevel::Warning.to_str(), "WARNING");
    assert_eq!(LogLevel::Info.to_ansi_code(), "\x1b[0;34m");
    assert_eq!(LogLevel::Fatal.to_ansi_code(), "\x1b[0;35m");
}
