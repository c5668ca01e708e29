use parquet_viewer::datetime::{
    format_date32, format_date64, format_timestamp_ms, format_timestamp_ns, format_timestamp_s, format_timestamp_us,
    julian_to_ymd,
};
use parquet_viewer::dtype::{format_cell, friendly_dtype, CellValue, ColumnType, TimeUnitKind};

/// The proleptic Gregorian date `days` days after 1970-01-01, by the
/// era-based civil calendar computation.
fn civil_from_days(days: i64) -> (i64, u32, u32) {
    let z = days + 719_468;
    let era = z.div_euclid(146_097);
    let doe = z.rem_euclid(146_097);
    let yoe = (doe - doe / 1460 + doe / 36_524 - doe / 146_096) / 365;
    let y = yoe + era * 400;
    let doy = doe - (365 * yoe + yoe / 4 - yoe / 100);
    let mp = (5 * doy + 2) / 153;
    let d = (doy - (153 * mp + 2) / 5 + 1) as u32;
    let m = if mp < 10 { mp + 3 } else { mp - 9 } as u32;
    (if m <= 2 { y + 1 } else { y }, m, d)
}

fn date_string(days: i64) -> String {
    let (y, m, d) = civil_from_days(days);
    format!("{y:04}-{m:02}-{d:02}")
}

fn samples() -> Vec<i64> {
    let mut v = vec![0, 1, -1, 59, 60, 365, 366, 10_957, 11_016, 11_017, -719_468, -719_162, 2_932_896, -2_440_588];
    let mut x: u64 = 0xdead_beef_cafe_f00d;
    for _ in 0..20000 {
        x ^= x << 13;
        x ^= x >> 7;
        x ^= x << 17;
        v.push((x % 12_000_000) as i64 - 2_440_588);
    }
    v
}

#[test]
fn dates_follow_the_gregorian_calendar() {
    for days in samples() {
        assert_eq!(format_date32(days as i32), date_string(days), "{days}");
    }
}

#[test]
fn date_examples() {
    assert_eq!(format_date32(0), "1970-01-01");
    assert_eq!(format_date32(-1), "1969-12-31");
    assert_eq!(format_date32(11_016), "2000-02-29");
    assert_eq!(format_date32(19_723), "2024-01-01");
    assert_eq!(format_date32(-719_528), "0000-01-01");
    assert_eq!(format_date32(-719_529), "-001-12-31");
    assert_eq!(julian_to_ymd(2_440_588), (1970, 1, 1));
    assert_eq!(julian_to_ymd(2_451_545), (2000, 1, 1));
    assert_eq!(julian_to_ymd(0), (-4713, 11, 24));
    // The earliest day number that still gives a day of the month of 1 or
    // more, and the one before it.
    assert_eq!(julian_to_ymd(-68_599), (-4900, 2, 1));
    assert_eq!(julian_to_ymd(-68_600), (-4900, 2, 0));
    // The largest and smallest day numbers taken.
    let (_, m, d) = julian_to_ymd(i64::MAX / 4 - 68_569);
    assert!((1..=12).contains(&m) && (1..=31).contains(&d));
    let _ = julian_to_ymd(i64::MIN / 4 - 68_569);
}

#[test]
fn date64_truncates_toward_zero() {
    assert_eq!(format_date64(0), "1970-01-01");
    assert_eq!(format_date64(86_399_999), "1970-01-01");
    assert_eq!(format_date64(86_400_000), "1970-01-02");
    // Division truncates, so the last millisecond before the epoch still
    // shows 1970-01-01.
    assert_eq!(format_date64(-1), "1970-01-01");
    assert_eq!(format_date64(-86_400_000), "1969-12-31");
    for ms in [1_700_000_000_123i64, -1_234_567_890_123, 253_402_300_799_999] {
        assert_eq!(format_date64(ms), date_string(ms / 86_400_000), "{ms}");
    }
}

fn timestamp_string(v: i64, per_sec: i64, width: usize) -> String {
    let per_day = 86_400 * per_sec;
    let days = v.div_euclid(per_day);
    let rem = v.rem_euclid(per_day);
    let secs = rem / per_sec;
    let frac = rem % per_sec;
    let (h, m, s) = (secs / 3600, (secs % 3600) / 60, secs % 60);
    let date = date_string(days);
    if width == 0 {
        format!("{date} {h:02}:{m:02}:{s:02}")
    } else {
        format!("{date} {h:02}:{m:02}:{s:02}.{frac:0width$}")
    }
}

#[test]
fn timestamps_split_days_and_time() {
    assert_eq!(format_timestamp_s(0), "1970-01-01 00:00:00");
    assert_eq!(format_timestamp_s(-1), "1969-12-31 23:59:59");
    assert_eq!(format_timestamp_ms(1_700_000_000_123), "2023-11-14 22:13:20.123");
    assert_eq!(format_timestamp_us(-1), "1969-12-31 23:59:59.999999");
    assert_eq!(format_timestamp_ns(1), "1970-01-01 00:00:00.000000001");
    let mut x: u64 = 0x0123_4567_89ab_cdef;
    for _ in 0..5000 {
        x ^= x << 13;
        x ^= x >> 7;
        x ^= x << 17;
        let v = (x % 400_000_000_000_000_000) as i64 - 200_000_000_000_000_000;
        assert_eq!(format_timestamp_ns(v), timestamp_string(v, 1_000_000_000, 9));
        let us = v / 1000;
        assert_eq!(format_timestamp_us(us), timestamp_string(us, 1_000_000, 6));
        let ms = v / 1_000_000_000;
        assert_eq!(format_timestamp_ms(ms), timestamp_string(ms, 1000, 3));
        let s = v / 1_000_000_000_000;
        assert_eq!(format_timestamp_s(s), timestamp_string(s, 1, 0));
    }
}

#[test]
fn cells_show_their_values() {
    assert_eq!(format_cell(&CellValue::Null), "");
    assert_eq!(format_cell(&CellValue::Bool(true)), "true");
    assert_eq!(format_cell(&CellValue::Bool(false)), "false");
    assert_eq!(format_cell(&CellValue::Int(-42)), "-42");
    assert_eq!(format_cell(&CellValue::Int(u64::MAX as i128)), "18446744073709551615");
    assert_eq!(format_cell(&CellValue::Int(i64::MIN as i128)), "-9223372036854775808");
    assert_eq!(format_cell(&CellValue::Text("héllo".to_string())), "héllo");
    assert_eq!(format_cell(&CellValue::Date32(19_723)), "2024-01-01");
    assert_eq!(format_cell(&CellValue::Date64(86_400_000)), "1970-01-02");
    assert_eq!(format_cell(&CellValue::Timestamp(TimeUnitKind::Second, 86_399)), "1970-01-01 23:59:59");
    assert_eq!(format_cell(&CellValue::Timestamp(TimeUnitKind::Millisecond, 1)), "1970-01-01 00:00:00.001");
    assert_eq!(format_cell(&CellValue::Timestamp(TimeUnitKind::Microsecond, 1)), "1970-01-01 00:00:00.000001");
    assert_eq!(format_cell(&CellValue::Timestamp(TimeUnitKind::Nanosecond, -1)), "1969-12-31 23:59:59.999999999");
}

#[test]
fn type_names() {
    assert_eq!(friendly_dtype(&ColumnType::Boolean), "bool");
    assert_eq!(friendly_dtype(&ColumnType::Int8), "int8");
    assert_eq!(friendly_dtype(&ColumnType::UInt64), "uint64");
    assert_eq!(friendly_dtype(&ColumnType::Float16), "float16");
    assert_eq!(friendly_dtype(&ColumnType::Float64), "float64");
    assert_eq!(friendly_dtype(&ColumnType::Utf8), "string");
    assert_eq!(friendly_dtype(&ColumnType::LargeUtf8), "string");
    assert_eq!(friendly_dtype(&ColumnType::Binary), "bytes");
    assert_eq!(friendly_dtype(&ColumnType::LargeBinary), "bytes");
    assert_eq!(friendly_dtype(&ColumnType::Date32), "date");
    assert_eq!(friendly_dtype(&ColumnType::Date64), "date");
    assert_eq!(friendly_dtype(&ColumnType::Timestamp(TimeUnitKind::Microsecond, None)), "timestamp[Microsecond, no tz]");
    assert_eq!(
        friendly_dtype(&ColumnType::Timestamp(TimeUnitKind::Nanosecond, Some("UTC".to_string()))),
        "timestamp[Nanosecond, UTC]"
    );
    assert_eq!(friendly_dtype(&ColumnType::List(Box::new(ColumnType::Int32))), "list<int32>");
    assert_eq!(
        friendly_dtype(&ColumnType::Dictionary(Box::new(ColumnType::List(Box::new(ColumnType::Utf8))))),
        "dict<list<string>>"
    );
    assert_eq!(friendly_dtype(&ColumnType::Struct), "struct");
    assert_eq!(friendly_dtype(&ColumnType::Decimal128(38, -2)), "decimal(38,-2)");
    assert_eq!(friendly_dtype(&ColumnType::Other("Duration(Second)".to_string())), "Duration(Second)");
}

#[test]
fn finer_units_add_three_digits() {
    assert_eq!(format_timestamp_ms(-1), "1969-12-31 23:59:59.999");
    assert_eq!(format_timestamp_ms(1_500), "1970-01-01 00:00:01.500");
    assert_eq!(format_timestamp_us(1_000_001), "1970-01-01 00:00:01.000001");
    let mut x: u64 = 0x7777_1234_abcd_0042;
    for _ in 0..3000 {
        x ^= x << 13;
        x ^= x >> 7;
        x ^= x << 17;
        let coarse = (x % 2_000_000_000_000) as i64 - 1_000_000_000_000;
        let k = ((x >> 40) % 1000) as i64;
        let digits = format!("{k:03}");
        let s = coarse / 1_000_000;
        assert_eq!(format_timestamp_ms(s * 1000 + k), format_timestamp_s(s) + "." + &digits);
        let ms = coarse / 1000;
        assert_eq!(format_timestamp_us(ms * 1000 + k), format_timestamp_ms(ms) + &digits);
        assert_eq!(format_timestamp_ns(coarse * 1000 + k), format_timestamp_us(coarse) + &digits);
    }
}

fn leap(y: i64) -> bool {
    y % 4 == 0 && (y % 100 != 0 || y % 400 == 0)
}

fn month_days(y: i64, m: u32) -> u32 {
    match m {
        2 => if leap(y) { 29 } else { 28 },
        4 | 6 | 9 | 11 => 30,
        _ => 31,
    }
}

#[test]
fn day_numbers_walk_the_calendar() {
    let mut starts: Vec<i64> = vec![0, 2_440_587, 2_451_604, 2_451_605, 1_721_058, 1_999_999_000];
    let mut x: u64 = 0x1357_9bdf_2468_ace0;
    for _ in 0..200 {
        x ^= x << 13;
        x ^= x >> 7;
        x ^= x << 17;
        starts.push((x % 1_999_000_000) as i64);
    }
    for start in starts {
        let mut prev = julian_to_ymd(start);
        for jd in start + 1..start + 800 {
            let (y, m, d) = prev;
            assert!((1..=12).contains(&m) && d >= 1 && d <= month_days(y as i64, m), "{jd}");
            let next = if d < month_days(y as i64, m) {
                (y, m, d + 1)
            } else if m < 12 {
                (y, m + 1, 1)
            } else {
                (y + 1, 1, 1)
            };
            let cur = julian_to_ymd(jd);
            assert_eq!(cur, next, "{jd}");
            prev = cur;
        }
    }
}
