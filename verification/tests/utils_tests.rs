use discord_extractor::utils::extract_year_month;
use discord_extractor::utils::format_timestamp_to_local;
use discord_extractor::utils::sanitize_filename;

#[test]
fn test_format_timestamp_to_local_empty() {
    assert_eq!(format_timestamp_to_local(""), "");
}

#[test]
fn test_format_timestamp_to_local_rfc3339_with_z() {
    let result = format_timestamp_to_local("2025-12-16T10:30:00Z");
    assert!(result.starts_with("2025-12-16"));
    // Time will be converted to local timezone, so we just check it contains a time format
    assert!(result.contains(":") && result.len() > 10);
}

#[test]
fn test_format_timestamp_to_local_iso8601_no_timezone() {
    let result = format_timestamp_to_local("2025-12-16T10:30:00");
    assert!(result.starts_with("2025-12-16"));
    assert!(result.contains(":"));
}

#[test]
fn test_format_timestamp_to_local_sqlite_format() {
    let result = format_timestamp_to_local("2025-12-16 10:30:00");
    assert!(result.starts_with("2025-12-16"));
    assert!(result.contains(":"));
}

#[test]
fn test_format_timestamp_to_local_date_only() {
    let result = format_timestamp_to_local("2025-12-16");
    assert!(result.starts_with("2025-12-16"));
}

#[test]
fn test_format_timestamp_to_local_invalid_returns_original() {
    let invalid = "not-a-timestamp";
    assert_eq!(format_timestamp_to_local(invalid), invalid);
}

#[test]
fn test_extract_year_month_valid_format_with_space() {
    assert_eq!(extract_year_month("2025-12-16 10:30:00 PST"), Some("2025-12".to_string()));
}

#[test]
fn test_extract_year_month_valid_format_with_t() {
    assert_eq!(extract_year_month("2025-12-16T10:30:00"), Some("2025-12".to_string()));
}

#[test]
fn test_extract_year_month_valid_format_with_timezone() {
    assert_eq!(extract_year_month("2025-12-16 10:30:00 EST"), Some("2025-12".to_string()));
}

#[test]
fn test_extract_year_month_single_digit_month() {
    assert_eq!(extract_year_month("2025-01-16 10:30:00"), Some("2025-01".to_string()));
}

#[test]
fn test_extract_year_month_invalid_format() {
    assert_eq!(extract_year_month("invalid"), None);
}

#[test]
fn test_extract_year_month_too_short() {
    assert_eq!(extract_year_month("2025"), None);
}

#[test]
fn test_extract_year_month_empty() {
    assert_eq!(extract_year_month(""), None);
}

#[test]
fn test_sanitize_filename_valid() {
    assert_eq!(sanitize_filename("general"), "general");
    assert_eq!(sanitize_filename("channel-name"), "channel-name");
}

#[test]
fn test_sanitize_filename_with_slashes() {
    assert_eq!(sanitize_filename("channel/name"), "channel-name");
    assert_eq!(sanitize_filename("channel\\name"), "channel-name");
}

#[test]
fn test_sanitize_filename_with_colons() {
    assert_eq!(sanitize_filename("channel:name"), "channel-name");
}

#[test]
fn test_sanitize_filename_with_special_chars() {
    assert_eq!(sanitize_filename("channel*name"), "channel-name");
    assert_eq!(sanitize_filename("channel?name"), "channel-name");
    assert_eq!(sanitize_filename("channel\"name"), "channel-name");
    assert_eq!(sanitize_filename("channel<name"), "channel-name");
    assert_eq!(sanitize_filename("channel>name"), "channel-name");
    assert_eq!(sanitize_filename("channel|name"), "channel-name");
}

#[test]
fn test_sanitize_filename_with_whitespace() {
    assert_eq!(sanitize_filename("  channel name  "), "channel name");
}

#[test]
fn test_sanitize_filename_mixed() {
    assert_eq!(sanitize_filename("channel/name:test*file"), "channel-name-test-file");
}

#[test]
fn test_sanitize_filename_empty() {
    assert_eq!(sanitize_filename(""), "");
}
