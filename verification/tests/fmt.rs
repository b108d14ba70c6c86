use kwik::fmt;

#[test]
fn it_fmts_timespan_ms() {
    assert_eq!(fmt::timespan(0), "0");
    assert_eq!(fmt::timespan(1), "1");
    assert_eq!(fmt::timespan(10), "10");
    assert_eq!(fmt::timespan(100), "100");
}

#[test]
fn it_fmts_timespan_secs() {
    assert_eq!(fmt::timespan(1_000), "1.000");
    assert_eq!(fmt::timespan(1_001), "1.001");
    assert_eq!(fmt::timespan(10_000), "10.000");
    assert_eq!(fmt::timespan(31_234), "31.234");
    assert_eq!(fmt::timespan(59_999), "59.999");
}

#[test]
fn it_fmts_timespan_mins() {
    assert_eq!(fmt::timespan(60_000), "1:00.000");
    assert_eq!(fmt::timespan(60_001), "1:00.001");
    assert_eq!(fmt::timespan(600_000), "10:00.000");
    assert_eq!(fmt::timespan(1_234_567), "20:34.567");
    assert_eq!(fmt::timespan(3_599_999), "59:59.999");
}

#[test]
fn it_fmts_timespan_hrs() {
    assert_eq!(fmt::timespan(3_600_000), "1:00:00.000");
    assert_eq!(fmt::timespan(3_600_001), "1:00:00.001");
    assert_eq!(fmt::timespan(36_000_000), "10:00:00.000");
    assert_eq!(fmt::timespan(12_345_678), "3:25:45.678");
    assert_eq!(fmt::timespan(86_399_999), "23:59:59.999");
}

#[test]
fn it_fmts_timespan_days() {
    assert_eq!(fmt::timespan(86_400_000), "1.00:00:00.000");
    assert_eq!(fmt::timespan(86_400_001), "1.00:00:00.001");
    assert_eq!(fmt::timespan(864_000_000), "10.00:00:00.000");
    assert_eq!(fmt::timespan(123_456_789), "1.10:17:36.789");
    assert_eq!(fmt::timespan(950_399_999), "10.23:59:59.999");
}

#[test]
fn fmt_number_groups_digits() {
    assert_eq!(fmt::number(0), "0");
    assert_eq!(fmt::number(999), "999");
    assert_eq!(fmt::number(1_000), "1,000");
    assert_eq!(fmt::number(1_234_567), "1,234,567");
    assert_eq!(fmt::number(1_000_001), "1,000,001");
    assert_eq!(fmt::number(u64::MAX), "18,446,744,073,709,551,615");
}

#[test]
fn fmt_memory_unit_index_and_name() {
    assert_eq!(fmt::memory_unit_index(0), 0);
    assert_eq!(fmt::memory_unit_index(1023), 0);
    assert_eq!(fmt::memory_unit_index(1024), 1);
    assert_eq!(fmt::memory_unit_index(1024 * 1024), 2);
    assert_eq!(fmt::memory_unit_index(u64::MAX), 6);
    assert_eq!(fmt::memory_unit(0), "B");
    assert_eq!(fmt::memory_unit(1), "KiB");
    assert_eq!(fmt::memory_unit(6), "EiB");
}
