use tinyticker::clock::{
    civil_from_days, days_from_civil, days_in_month, format_hms, is_leap, nth_weekday_of_month,
    now_hms, parse_posix, parse_tzif, weekday_from_days, zone_from_env, DayOfYear, Zone, ZoneSource,
    SECS_PER_DAY,
};

type Vector = (&'static str, i64, (u32, u32, u32), i32);
const VECTORS: &[Vector] = &[
    ("Asia/Shanghai", 0, (8, 0, 0), 28800),
    ("Asia/Shanghai", 300000000, (13, 20, 0), 28800),
    ("Asia/Shanghai", 951789600, (10, 0, 0), 28800),
    ("Asia/Shanghai", 1048323600, (17, 0, 0), 28800),
    ("Asia/Shanghai", 1141606800, (9, 0, 0), 28800),
    ("Asia/Shanghai", 1585267200, (8, 0, 0), 28800),
    ("Asia/Shanghai", 1709254800, (9, 0, 0), 28800),
    ("Asia/Shanghai", 2147483647, (11, 14, 7), 28800),
    ("Asia/Shanghai", 2147483648, (11, 14, 8), 28800),
    ("Asia/Shanghai", 3000000000, (13, 20, 0), 28800),
    ("Asia/Shanghai", 4102444800, (8, 0, 0), 28800),
    ("Asia/Shanghai", 1520298000, (9, 0, 0), 28800),
    ("Europe/Berlin", 0, (1, 0, 0), 3600),
    ("Europe/Berlin", 300000000, (6, 20, 0), 3600),
    ("Europe/Berlin", 951789600, (3, 0, 0), 3600),
    ("Europe/Berlin", 1048323600, (10, 0, 0), 3600),
    ("Europe/Berlin", 1141606800, (2, 0, 0), 3600),
    ("Europe/Berlin", 1585267200, (1, 0, 0), 3600),
    ("Europe/Berlin", 1709254800, (2, 0, 0), 3600),
    ("Europe/Berlin", 2147483647, (4, 14, 7), 3600),
    ("Europe/Berlin", 2147483648, (4, 14, 8), 3600),
    ("Europe/Berlin", 3000000000, (6, 20, 0), 3600),
    ("Europe/Berlin", 4102444800, (1, 0, 0), 3600),
    ("Europe/Berlin", 1520298000, (2, 0, 0), 3600),
    ("America/New_York", 0, (19, 0, 0), -18000),
    ("America/New_York", 300000000, (1, 20, 0), -14400),
    ("America/New_York", 951789600, (21, 0, 0), -18000),
    ("America/New_York", 1048323600, (4, 0, 0), -18000),
    ("America/New_York", 1141606800, (20, 0, 0), -18000),
    ("America/New_York", 1585267200, (20, 0, 0), -14400),
    ("America/New_York", 1709254800, (20, 0, 0), -18000),
    ("America/New_York", 2147483647, (22, 14, 7), -18000),
    ("America/New_York", 2147483648, (22, 14, 8), -18000),
    ("America/New_York", 3000000000, (0, 20, 0), -18000),
    ("America/New_York", 4102444800, (19, 0, 0), -18000),
    ("America/New_York", 1520298000, (20, 0, 0), -18000),
    ("Australia/Sydney", 0, (10, 0, 0), 36000),
    ("Australia/Sydney", 300000000, (15, 20, 0), 36000),
    ("Australia/Sydney", 951789600, (13, 0, 0), 39600),
    ("Australia/Sydney", 1048323600, (20, 0, 0), 39600),
    ("Australia/Sydney", 1141606800, (12, 0, 0), 39600),
    ("Australia/Sydney", 1585267200, (11, 0, 0), 39600),
    ("Australia/Sydney", 1709254800, (12, 0, 0), 39600),
    ("Australia/Sydney", 2147483647, (14, 14, 7), 39600),
    ("Australia/Sydney", 2147483648, (14, 14, 8), 39600),
    ("Australia/Sydney", 3000000000, (16, 20, 0), 39600),
    ("Australia/Sydney", 4102444800, (11, 0, 0), 39600),
    ("Australia/Sydney", 1520298000, (12, 0, 0), 39600),
    ("Asia/Kathmandu", 0, (5, 30, 0), 19800),
    ("Asia/Kathmandu", 300000000, (10, 50, 0), 19800),
    ("Asia/Kathmandu", 951789600, (7, 45, 0), 20700),
    ("Asia/Kathmandu", 1048323600, (14, 45, 0), 20700),
    ("Asia/Kathmandu", 1141606800, (6, 45, 0), 20700),
    ("Asia/Kathmandu", 1585267200, (5, 45, 0), 20700),
    ("Asia/Kathmandu", 1709254800, (6, 45, 0), 20700),
    ("Asia/Kathmandu", 2147483647, (8, 59, 7), 20700),
    ("Asia/Kathmandu", 2147483648, (8, 59, 8), 20700),
    ("Asia/Kathmandu", 3000000000, (11, 5, 0), 20700),
    ("Asia/Kathmandu", 4102444800, (5, 45, 0), 20700),
    ("Asia/Kathmandu", 1520298000, (6, 45, 0), 20700),
    ("Pacific/Chatham", 0, (12, 45, 0), 45900),
    ("Pacific/Chatham", 300000000, (18, 5, 0), 45900),
    ("Pacific/Chatham", 951789600, (15, 45, 0), 49500),
    ("Pacific/Chatham", 1048323600, (21, 45, 0), 45900),
    ("Pacific/Chatham", 1141606800, (14, 45, 0), 49500),
    ("Pacific/Chatham", 1585267200, (13, 45, 0), 49500),
    ("Pacific/Chatham", 1709254800, (14, 45, 0), 49500),
    ("Pacific/Chatham", 2147483647, (16, 59, 7), 49500),
    ("Pacific/Chatham", 2147483648, (16, 59, 8), 49500),
    ("Pacific/Chatham", 3000000000, (19, 5, 0), 49500),
    ("Pacific/Chatham", 4102444800, (13, 45, 0), 49500),
    ("Pacific/Chatham", 1520298000, (14, 45, 0), 49500),
    ("UTC", 0, (0, 0, 0), 0),
    ("UTC", 300000000, (5, 20, 0), 0),
    ("UTC", 951789600, (2, 0, 0), 0),
    ("UTC", 1048323600, (9, 0, 0), 0),
    ("UTC", 1141606800, (1, 0, 0), 0),
    ("UTC", 1585267200, (0, 0, 0), 0),
    ("UTC", 1709254800, (1, 0, 0), 0),
    ("UTC", 2147483647, (3, 14, 7), 0),
    ("UTC", 2147483648, (3, 14, 8), 0),
    ("UTC", 3000000000, (5, 20, 0), 0),
    ("UTC", 4102444800, (0, 0, 0), 0),
    ("UTC", 1520298000, (1, 0, 0), 0),
];

/// A zone file: what holds from each moment on, and the rule for what follows the last of them.
fn tzif(first: i32, changes: &[(i64, i32)], rule: &str) -> Vec<u8> {
    let header = |times: u32, types: u32, chars: u32| {
        let mut h = b"TZif2".to_vec();
        h.extend_from_slice(&[0; 15]);
        for n in [0, 0, 0, times, types, chars] {
            h.extend_from_slice(&n.to_be_bytes());
        }
        h
    };
    let mut b = header(0, 1, 4);
    b.extend_from_slice(&first.to_be_bytes());
    b.extend_from_slice(&[0, 0]);
    b.extend_from_slice(b"LMT\0");
    b.extend(header(changes.len() as u32, changes.len() as u32 + 1, 4));
    for (at, _) in changes {
        b.extend_from_slice(&at.to_be_bytes());
    }
    for i in 0..changes.len() {
        b.push(i as u8 + 1);
    }
    b.extend_from_slice(&first.to_be_bytes());
    b.extend_from_slice(&[0, 0]);
    for (_, off) in changes {
        b.extend_from_slice(&off.to_be_bytes());
        b.extend_from_slice(&[0, 0]);
    }
    b.extend_from_slice(b"LMT\0");
    b.push(10);
    b.extend_from_slice(rule.as_bytes());
    b.push(10);
    b
}

/// The zones of `VECTORS`, with the changes between its moments.
fn zone_file(name: &str) -> Vec<u8> {
    if name == "Asia/Shanghai" {
        tzif(28800, &[(684_867_600, 28800)], "CST-8")
    } else if name == "Europe/Berlin" {
        tzif(3600, &[(315_532_800, 3600)], "CET-1CEST,M3.5.0,M10.5.0/3")
    } else if name == "America/New_York" {
        tzif(
            -18000,
            &[
                (294_217_200, -14400),
                (309_938_400, -18000),
                (1_162_101_600, -18000),
            ],
            "EST5EDT,M3.2.0,M11.1.0",
        )
    } else if name == "Australia/Sydney" {
        tzif(
            36000,
            &[(935_769_600, 39600), (1_193_500_800, 39600)],
            "AEST-10AEDT,M10.1.0,M4.1.0/3",
        )
    } else if name == "Asia/Kathmandu" {
        tzif(19800, &[(504_901_800, 20700)], "<+0545>-5:45")
    } else if name == "Pacific/Chatham" {
        tzif(
            45900,
            &[
                (938_872_800, 49500),
                (1_047_736_800, 45900),
                (1_128_088_800, 49500),
                (1_142_690_400, 45900),
            ],
            "<+1245>-12:45<+1345>,M9.5.0/2:45,M4.1.0/3:45",
        )
    } else {
        tzif(0, &[], "UTC0")
    }
}

#[test]
fn tzif_matches_reference_implementation() {
    for (zone_name, epoch, hms, off) in VECTORS {
        let data = zone_file(zone_name);
        let zone = parse_tzif(&data).unwrap_or_else(|| panic!("{zone_name} 解析失败"));
        assert_eq!(zone.offset_at(*epoch), *off, "{zone_name} @{epoch} 偏移");
        assert_eq!(zone.hms(*epoch), *hms, "{zone_name} @{epoch} 时分秒");
    }
}

#[test]
fn posix_rule_without_files() {
    let est = parse_posix("EST5EDT,M3.2.0,M11.1.0").expect("EST5EDT");
    assert_eq!(est.std_off, -18000);
    assert_eq!(est.offset_at(1_720_080_000), -14400);
    assert_eq!(est.offset_at(1_704_374_400), -18000);

    let cst = parse_posix("CST-8").expect("CST-8");
    assert_eq!(cst.offset_at(0), 28800);
    assert_eq!(cst.dst, None);

    let odd = parse_posix("<+05>-5:30").expect("+05:30");
    assert_eq!(odd.offset_at(0), 19800);
}

#[test]
fn default_posix_rule_is_us_style() {
    let r = parse_posix("EST5EDT").expect("EST5EDT 无显式规则");
    assert_eq!(r.offset_at(1_720_080_000), -14400);
    assert_eq!(r.offset_at(1_704_374_400), -18000);
}

#[test]
fn julian_and_ordinal_day_numbering() {
    let date_of = |n: u32, year: i64| {
        let doy = DayOfYear::Julian(n).second_of_year(year) / SECS_PER_DAY;
        civil_from_days(days_from_civil(year, 1, 1) + doy)
    };
    assert_eq!(date_of(60, 2023), (2023, 3, 1));
    assert_eq!(date_of(60, 2024), (2024, 3, 1));
    assert_eq!(date_of(59, 2024), (2024, 2, 28));
    let ordinal = |n: u32, year: i64| {
        let doy = DayOfYear::Ordinal(n).second_of_year(year) / SECS_PER_DAY;
        civil_from_days(days_from_civil(year, 1, 1) + doy)
    };
    assert_eq!(ordinal(60, 2024), (2024, 3, 1));
    assert_eq!(ordinal(60, 2023), (2023, 3, 2));
}

#[test]
fn last_weekday_of_month() {
    assert_eq!(nth_weekday_of_month(2024, 3, 5, 0), 30);
    assert_eq!(nth_weekday_of_month(2024, 11, 1, 0), 2);
    assert_eq!(weekday_from_days(0), 4);
}

#[test]
fn civil_day_roundtrip() {
    let mut d = -40_000i64;
    while d < 40_000 {
        let (y, m, day) = civil_from_days(d);
        assert_eq!(days_from_civil(y, m, day), d, "{y}-{m}-{day}");
        d += 137;
    }
    assert!(is_leap(2024) && !is_leap(2023) && is_leap(2000) && !is_leap(1900));
}

#[test]
fn hms_stays_in_range_across_epoch_edges() {
    for zone in [
        Zone::utc(),
        parse_tzif(&zone_file("Pacific/Chatham")).unwrap(),
        Zone::from_posix("EST5EDT,M3.2.0,M11.1.0").unwrap(),
    ] {
        for epoch in [-1_000_000i64, 0, 1, 1_000_000_000, 4_000_000_000] {
            let (h, m, s) = zone.hms(epoch);
            assert!(h < 24 && m < 60 && s < 60, "{epoch} → {h}:{m}:{s}");
        }
    }
}

#[test]
fn hms_formatting_24h() {
    assert_eq!(format_hms(0, 0, 0, false), "00:00:00");
    assert_eq!(format_hms(9, 5, 3, false), "09:05:03");
    assert_eq!(format_hms(23, 59, 59, false), "23:59:59");
}

#[test]
fn hms_formatting_12h() {
    assert_eq!(format_hms(0, 0, 0, true), "12:00:00 AM");
    assert_eq!(format_hms(12, 30, 0, true), "12:30:00 PM");
    assert_eq!(format_hms(9, 5, 3, true), "09:05:03 AM");
    assert_eq!(format_hms(13, 5, 3, true), "01:05:03 PM");
    assert_eq!(format_hms(23, 59, 59, true), "11:59:59 PM");
}

#[test]
fn now_is_in_range() {
    let since_epoch = std::time::SystemTime::now()
        .duration_since(std::time::UNIX_EPOCH)
        .unwrap()
        .as_secs();
    let (h, m, s) = now_hms(&Zone::utc(), Some(since_epoch));
    assert!(h < 24 && m < 60 && s < 60);
}

#[test]
fn zones_are_looked_for_where_the_variable_says() {
    let of = |tz: &str| zone_from_env(tz);
    assert_eq!(of(""), (ZoneSource::Machine, String::new()));
    assert_eq!(of(":"), (ZoneSource::Machine, String::new()));
    assert_eq!(of("/etc/localtime"), (ZoneSource::File, "/etc/localtime".to_string()));
    assert_eq!(of(":/usr/x"), (ZoneSource::File, "/usr/x".to_string()));
    assert_eq!(of(":Asia/Tokyo"), (ZoneSource::Database, "Asia/Tokyo".to_string()));
    assert_eq!(of("CST-8"), (ZoneSource::Rule, "CST-8".to_string()));
}

#[test]
fn months_have_their_days() {
    assert_eq!([2000, 1900, 2024, 2023].map(|y| days_in_month(y, 2)), [29, 28, 29, 28]);
    let year: i64 = (1..=12).map(|m| days_in_month(2023, m)).sum();
    assert_eq!(year, 365);
    assert_eq!([0i64, 1, -1, 3].map(weekday_from_days), [4, 5, 3, 0]);
}

#[test]
fn a_clock_before_1970_counts_as_standing_at_its_start() {
    let z = Zone::from_posix("CST-8").unwrap();
    assert_eq!(now_hms(&z, None), (8, 0, 0));
    assert_eq!(now_hms(&z, Some(61)), (8, 1, 1));
    assert_eq!(now_hms(&Zone::utc(), Some(86_399)), (23, 59, 59));
    assert!(Zone::utc().is_sound());
}

#[test]
fn broken_zone_files_are_refused() {
    let good = zone_file("Asia/Shanghai");
    assert!(parse_tzif(&good).is_some());
    assert!(parse_tzif(&[]).is_none());
    assert!(parse_tzif(b"TZif").is_none());
    for n in 0..good.len().min(120) {
        let _ = parse_tzif(&good[..n]);
    }
    let mut bad = good.clone();
    bad[0] = b'X';
    assert!(parse_tzif(&bad).is_none());
}

#[test]
fn the_ends_of_time_have_a_time_of_day() {
    let utc = Zone::utc();
    assert_eq!(utc.hms(i64::MAX), (15, 30, 7));
    assert_eq!(utc.hms(i64::MIN), (8, 29, 52));
    let est = Zone::from_posix("EST5EDT,M3.2.0,M11.1.0").unwrap();
    assert_eq!(est.hms(i64::MAX), (10, 30, 7));
    assert_eq!(est.hms(i64::MIN), (3, 29, 52));
    let shanghai = parse_tzif(&zone_file("Asia/Shanghai")).unwrap();
    assert_eq!(shanghai.hms(i64::MAX), (23, 30, 7));
}
