use otm::format::{bytes, gb, hz, percent, rate, uptime};
use otm::model::CPU_UNITS_PER_PERCENT;

const MB: u64 = 1024 * 1024;
const GB: u64 = 1024 * 1024 * 1024;

#[test]
fn formats_like_the_gui() {
    assert_eq!(bytes(512 * 1024 * 1024), "512.0 MB");
    assert_eq!(bytes(3 * 1024 * 1024 * 1024), "3.00 GB");
    // Rates are whole bytes per second here: 1024 B/s and 2.5 MiB/s.
    assert_eq!(rate(1024), "0 MB/s");
    assert_eq!(rate(5 * 1024 * 1024 / 2), "2.5 MB/s");
    assert_eq!(hz(0), "—");
    assert_eq!(hz(800), "800 MHz");
    assert_eq!(hz(3400), "3.40 GHz");
    // Up time is whole seconds here.
    assert_eq!(uptime(3725), "01:02:05");
    assert_eq!(uptime(90061), "1:01:01:01");
}

#[test]
fn bytes_round_half_to_even() {
    assert_eq!(bytes(MB / 4), "0.2 MB");
    assert_eq!(bytes(3 * MB / 4), "0.8 MB");
    assert_eq!(bytes(0), "0.0 MB");
    assert_eq!(bytes(GB - 1), "1024.0 MB");
    assert_eq!(bytes(GB), "1.00 GB");
}

#[test]
fn gigabytes_with_one_decimal() {
    assert_eq!(gb(12 * GB + 700 * MB), "12.7 GB");
    assert_eq!(gb(32 * GB), "32.0 GB");
    assert_eq!(gb(0), "0.0 GB");
}

#[test]
fn rate_threshold_at_a_twentieth_of_a_megabyte() {
    assert_eq!(rate(52428), "0 MB/s");
    assert_eq!(rate(52429), "0.1 MB/s");
    assert_eq!(rate(0), "0 MB/s");
    assert_eq!(rate(2411724), "2.3 MB/s");
}

#[test]
fn clock_speeds() {
    assert_eq!(hz(999), "999 MHz");
    assert_eq!(hz(1000), "1.00 GHz");
    assert_eq!(hz(1500), "1.50 GHz");
    // 1.005 is just below 1.005 as a double, so it rounds down.
    assert_eq!(hz(1005), "1.00 GHz");
}

#[test]
fn up_times() {
    assert_eq!(uptime(0), "00:00:00");
    assert_eq!(uptime(59), "00:00:59");
    assert_eq!(uptime(86400), "1:00:00:00");
    assert_eq!(uptime(3 * 3600 + 12 * 60 + 40), "03:12:40");
}

#[test]
fn percentages_with_one_decimal() {
    let units = |pct: f32| (pct as f64 * CPU_UNITS_PER_PERCENT as f64) as u64;
    assert_eq!(percent(units(9.8)), "9.8%");
    assert_eq!(percent(units(12.34)), "12.3%");
    assert_eq!(percent(0), "0.0%");
    assert_eq!(percent(100 * CPU_UNITS_PER_PERCENT), "100.0%");
    // Exact halves round to even, as `{:.1}` does.
    assert_eq!(percent(CPU_UNITS_PER_PERCENT / 4), "0.2%");
    assert_eq!(percent(3 * CPU_UNITS_PER_PERCENT / 4), "0.8%");
    // The unit keeps a single-precision share exactly: 0.05f32 lies just above 0.05.
    assert_eq!(percent(units(0.05)), "0.1%");
}
