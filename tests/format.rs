use toprs::config::{Config, Mode};
use toprs::helpers::{decimal, nice_size, nice_size_g, nice_size_g_thousands, nice_size_thousands, nice_time};
use toprs::sorted::SortType;

#[test]
fn sizes_in_bytes_and_units() {
    assert_eq!(nice_size(0), "");
    assert_eq!(nice_size(4999), "4999B");
    assert_eq!(nice_size(5000), "4.9K");
    assert_eq!(nice_size(5120), "5.0K");
    assert_eq!(nice_size(512000), "0.5M");
    assert_eq!(nice_size(1234 * 1048576), "1234.0M");
    assert_eq!(nice_size(60 * 1073741824), "60.0G");
}

#[test]
fn sizes_with_thousands_separator() {
    assert_eq!(nice_size_thousands(1234 * 1048576), "1,234.0M");
    assert_eq!(nice_size_thousands(400 * 1024), "400.0K");
    assert_eq!(nice_size_g_thousands(1234 * 1073741824), "1,234.0G");
    assert_eq!(nice_size_g_thousands(1234567 * 1073741824), "1,234,567.0G");
}

#[test]
fn sizes_in_gibibytes() {
    assert_eq!(nice_size_g(1610612736), "1.5G");
    assert_eq!(nice_size_g(0), "0.0G");
    assert_eq!(nice_size_g(16 * 1073741824), "16.0G");
}

#[test]
fn durations() {
    assert_eq!(nice_time(59), "59s");
    assert_eq!(nice_time(61), "01m 01s");
    assert_eq!(nice_time(3661), "1h  1m  1s ");
    assert_eq!(nice_time(90061), " 1d  1h  1m  1s ");
    assert_eq!(nice_time(2 * 86400 + 13 * 3600 + 45 * 60 + 30), " 2d 13h 45m 30s ");
}

#[test]
fn decimal_digits() {
    assert_eq!(decimal(0), "0");
    assert_eq!(decimal(1203), "1203");
    assert_eq!(decimal(u64::MAX), u64::MAX.to_string());
}

#[test]
fn default_config() {
    let c = Config::default();
    assert_eq!(c.mode, Mode::Tui);
    assert_eq!(c.tui.sort_column, 0);
    assert_eq!(c.tui.sort_type, SortType::Tree);
    assert!(c.tui.show_cpu_per_core);
}

#[test]
fn largest_sizes() {
    assert_eq!(nice_size(u64::MAX), "17179869184.0G");
    assert_eq!(nice_size_thousands(u64::MAX), "17,179,869,184.0G");
    assert_eq!(nice_size_g(u64::MAX), "17179869184.0G");
}

#[test]
fn size_rounding_carries_into_units() {
    assert_eq!(nice_size(511999), "500.0K");
    assert_eq!(nice_size(10188), "9.9K");
    assert_eq!(nice_size(10189), "10.0K");
}
