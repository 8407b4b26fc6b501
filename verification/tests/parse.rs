use tinyticker::parse::{parse_absolute, parse_duration, secs_until};

#[test]
fn bare_number_is_seconds() {
    assert_eq!(parse_duration("90"), Some(90));
    assert_eq!(parse_duration(" 5 "), Some(5));
    assert_eq!(parse_duration("0"), Some(0));
}

#[test]
fn single_unit() {
    assert_eq!(parse_duration("25m"), Some(1500));
    assert_eq!(parse_duration("2h"), Some(7200));
    assert_eq!(parse_duration("45S"), Some(45));
    assert_eq!(parse_duration("90M"), Some(5400));
}

#[test]
fn mixed_units_with_spaces() {
    assert_eq!(parse_duration("1h30m"), Some(5400));
    assert_eq!(parse_duration("1h 30m"), Some(5400));
    assert_eq!(parse_duration("2h15m10s"), Some(8110));
    assert_eq!(parse_duration("1h30"), Some(3630));
}

#[test]
fn rejects_garbage() {
    assert_eq!(parse_duration(""), None);
    assert_eq!(parse_duration("   "), None);
    assert_eq!(parse_duration("abc"), None);
    assert_eq!(parse_duration("-5"), None);
    assert_eq!(parse_duration("m25"), None);
    assert_eq!(parse_duration("1.5h"), None);
    assert_eq!(parse_duration("1x"), None);
}

#[test]
fn rejects_overflow() {
    assert_eq!(parse_duration("4294967296"), None);
    assert_eq!(parse_duration("999999999999h"), None);
}

#[test]
fn day_unit() {
    assert_eq!(parse_duration("1d"), Some(86_400));
    assert_eq!(parse_duration("2D"), Some(172_800));
    assert_eq!(parse_duration("1d12h"), Some(129_600));
    assert_eq!(parse_duration("1d 2h 3m 4s"), Some(93_784));
    assert_eq!(parse_duration("1d2d"), Some(259_200), "同类单位重复出现就是累加");
}

#[test]
fn t_suffix_absolute_time() {
    assert_eq!(parse_absolute("14 30t"), Some((14, 30, 0)));
    assert_eq!(parse_absolute("14:30T"), Some((14, 30, 0)));
    assert_eq!(parse_absolute("14 30 45t"), Some((14, 30, 45)));
    assert_eq!(parse_absolute("9t"), Some((9, 0, 0)), "只给时段就是整点");
    assert_eq!(parse_absolute(" 23 59 t "), Some((23, 59, 0)));
    assert_eq!(parse_absolute("14"), None);
    assert_eq!(parse_absolute("24t"), None);
    assert_eq!(parse_absolute("14 60t"), None);
    assert_eq!(parse_absolute("1 2 3 4t"), None);
    assert_eq!(parse_absolute("t"), None);
    assert_eq!(parse_absolute("14:30"), Some((14, 30, 0)));
    assert_eq!(parse_absolute("23:59:59"), Some((23, 59, 59)));
}

#[test]
fn t_form_is_not_a_duration() {
    assert_eq!(parse_duration("14 30t"), None);
    assert_eq!(parse_duration("9t"), None);
}

#[test]
fn absolute_time_parsing() {
    assert_eq!(parse_absolute("14:30"), Some((14, 30, 0)));
    assert_eq!(parse_absolute("9:05"), Some((9, 5, 0)));
    assert_eq!(parse_absolute("23:59:59"), Some((23, 59, 59)));
    assert_eq!(parse_absolute(" 14:30 "), Some((14, 30, 0)));
    assert_eq!(parse_absolute("24:00"), None);
    assert_eq!(parse_absolute("14:60"), None);
    assert_eq!(parse_absolute("14:30:60"), None);
    assert_eq!(parse_absolute("14"), None);
    assert_eq!(parse_absolute("14:30:45:00"), None);
    assert_eq!(parse_absolute("14:3o"), None);
    assert_eq!(parse_absolute(""), None);
}

#[test]
fn secs_until_wraps_to_tomorrow() {
    assert_eq!(secs_until((14, 30, 0), (10, 0, 0)), 16_200);
    assert_eq!(secs_until((1, 0, 0), (23, 0, 0)), 7_200);
    assert_eq!(secs_until((12, 0, 0), (12, 0, 0)), 86_400);
    assert_eq!(secs_until((0, 0, 0), (0, 0, 10)), 86_390);
}

#[test]
fn lengths_one_after_the_other_add_up() {
    for a in ["2h", "1d3H", " 90m", "1h 30m 10S"] {
        for b in ["5", "7m", "1h2", "30s ", "3 4"] {
            let joined = format!("{a}{b}");
            match (parse_duration(a), parse_duration(b)) {
                (Some(x), Some(y)) => assert_eq!(parse_duration(&joined), Some(x + y), "{joined}"),
                _ => assert_eq!(b, "3 4"),
            }
        }
    }
    assert_eq!(parse_duration("49710d"), Some(4_294_944_000));
    assert_eq!(parse_duration("49710d23295"), Some(u32::MAX));
    assert_eq!(parse_duration("49710d23296"), None);
}

#[test]
fn no_text_is_a_length_and_a_time_of_day() {
    for s in ["14:30", "14 30", "23:59:59", "0 0 0", "+1:+2", ":7:8", "14t", "14 30T", " 9:05 "] {
        let (h, m, sec) = parse_absolute(s).unwrap();
        assert!(h <= 23 && m <= 59 && sec <= 59);
        assert_eq!(parse_duration(s), None, "{s}");
    }
}
