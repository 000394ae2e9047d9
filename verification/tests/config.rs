use scribe::config::{
    default_auto_flush_interval, default_compression, default_max_file_count, default_max_file_size,
    default_min_console_level,
};
use scribe::ScribeConfig;

#[test]
fn test_default_config() {
    let config = ScribeConfig::default();
    assert_eq!(config.auto_flush_interval_ms, 5000);
    assert!(!config.enable_console);
    assert!(config.compression);
}

#[test]
fn default_config_holds_every_default() {
    let config = ScribeConfig::default();
    assert_eq!(config.min_console_level, 1);
    assert_eq!(config.max_file_size_mb, 10);
    assert_eq!(config.max_file_count, 5);
    assert!(!config.encryption);
    assert_eq!(default_auto_flush_interval(), 5000);
    assert_eq!(default_min_console_level(), 1);
    assert_eq!(default_max_file_size(), 10);
    assert_eq!(default_max_file_count(), 5);
    assert!(default_compression());
}
