use tinyticker::render::{format_centis, format_time, parse_color, premultiply, Canvas, Pad, NAMED};
use tinyticker::text::{shape, Inks};

#[test]
fn time_formatting() {
    assert_eq!(format_time(0, Pad::Plain), "0s");
    assert_eq!(format_time(45, Pad::Plain), "45s");
    assert_eq!(format_time(59, Pad::Plain), "59s");
    assert_eq!(format_time(60, Pad::Plain), "1:00");
    assert_eq!(format_time(754, Pad::Plain), "12:34");
    assert_eq!(format_time(3599, Pad::Plain), "59:59");
    assert_eq!(format_time(3600, Pad::Plain), "1:00:00");
    assert_eq!(format_time(3661, Pad::Plain), "1:01:01");
}

#[test]
fn padding_ladder() {
    for (secs, zero, full) in [
        (0, "00:00", "00:00:00"),
        (45, "00:45", "00:00:45"),
        (754, "12:34", "00:12:34"),
        (3661, "01:01:01", "01:01:01"),
    ] {
        assert_eq!(format_time(secs, Pad::Zero), zero, "{secs} 补两位不对");
        assert_eq!(format_time(secs, Pad::Full), full, "{secs} 全补不对");
    }
    assert_eq!(format_centis(4532, Pad::Zero), "00:45.32");
    assert_eq!(format_centis(4532, Pad::Full), "00:00:45.32");
    assert_eq!(format_centis(366101, Pad::Zero), "01:01:01.01");
}

#[test]
fn pad_names_roundtrip() {
    for p in [Pad::Plain, Pad::Zero, Pad::Full] {
        assert_eq!(Pad::from_name(p.name()), Some(p));
        assert!(!p.label().is_empty());
    }
    assert_eq!(Pad::from_name("half"), None);
    assert_eq!(Pad::default(), Pad::Plain, "默认档必须是不改变旧行为的那个");
}

#[test]
fn centisecond_formatting() {
    assert_eq!(format_centis(0, Pad::Plain), "0.00s");
    assert_eq!(format_centis(5, Pad::Plain), "0.05s");
    assert_eq!(format_centis(99, Pad::Plain), "0.99s");
    assert_eq!(format_centis(4532, Pad::Plain), "45.32s");
    assert_eq!(format_centis(5999, Pad::Plain), "59.99s");
    assert_eq!(format_centis(6000, Pad::Plain), "1:00.00");
    assert_eq!(format_centis(75423, Pad::Plain), "12:34.23");
    assert_eq!(format_centis(360000, Pad::Plain), "1:00:00.00");
    assert_eq!(format_centis(366101, Pad::Plain), "1:01:01.01");
}

#[test]
fn premultiplication() {
    assert_eq!(premultiply(0x0F0F14, 0xFF), 0xFF0F0F14);
    assert_eq!(premultiply(0xFFFFFF, 0x80), 0x80808080);
    assert_eq!(premultiply(0xFF0000, 0x40), 0x40400000);
    assert_eq!(premultiply(0x100203, 0x80), 0x80080101);
    assert_eq!(premultiply(0xFFFFFF, 0), 0);
}

#[test]
fn color_parsing() {
    assert_eq!(parse_color("0F0F14"), Some(0x0F0F14));
    assert_eq!(parse_color("#FFFFFF"), Some(0xFFFFFF));
    assert_eq!(parse_color("0xffcc50"), Some(0xFFCC50));
    assert_eq!(parse_color(" 10aabb "), Some(0x10AABB));
    assert_eq!(parse_color("XYZ"), None);
    assert_eq!(parse_color("12345"), None);
    assert_eq!(parse_color("1234567"), None);
    assert_eq!(parse_color(""), None);
}

#[test]
fn short_hex_expands_by_doubling_each_nibble() {
    assert_eq!(parse_color("#f57"), Some(0xFF5577));
    assert_eq!(parse_color("#000"), Some(0x000000));
    assert_eq!(parse_color("#fff"), Some(0xFFFFFF));
    assert_eq!(parse_color("#12g"), None);
}

#[test]
fn css_names_are_case_insensitive() {
    assert_eq!(parse_color("red"), Some(0xFF0000));
    assert_eq!(parse_color("Red"), Some(0xFF0000));
    assert_eq!(parse_color("  GOLD "), Some(0xFFD700));
    assert_eq!(parse_color("tomato"), None, "名表只有那 30 条，不扩");
    for (name, value) in NAMED {
        assert_eq!(parse_color(name), Some(value), "{name} 解析错了");
        assert_eq!(value & 0xFF000000, 0, "{name} 不该带 alpha");
    }
}

#[test]
fn rgb_triplets_accept_the_same_separators_as_catime() {
    assert_eq!(parse_color("rgb(255,94,150)"), Some(0xFF5E96));
    assert_eq!(parse_color("rgb( 255 , 94 , 150 )"), Some(0xFF5E96));
    assert_eq!(parse_color("255,94,150"), Some(0xFF5E96));
    assert_eq!(parse_color("255 94 150"), Some(0xFF5E96));
    assert_eq!(parse_color("255|94|150"), Some(0xFF5E96));
    assert_eq!(parse_color("255；94；150"), Some(0xFF5E96), "全角分号");
    assert_eq!(parse_color("1，2，3"), Some(0x010203), "全角逗号");
    assert_eq!(parse_color("256,0,0"), None, "分量出界要拒，不能回绕");
    assert_eq!(parse_color("1,2"), None);
    assert_eq!(parse_color("1,2,3,4"), None);
    assert_eq!(parse_color("rgb(1,2,x)"), None);
    assert_eq!(parse_color("RGB(1,2,3)"), Some(0x010203), "前缀也大小写无关");
    assert_eq!(parse_color("rgba(1,2,3,255)"), None, "alpha 没地方放，宁可不收");
    assert_eq!(parse_color("102030"), Some(0x102030));
}

#[test]
fn bitmap_run_paints_opaque_blocks() {
    for cell in [1u32, 3] {
        let run = shape("A", cell, 0, &Inks::none());
        assert_eq!(run.width, 8 * cell);
        let mut buf = vec![0u32; (24 * 24) as usize];
        let mut c = Canvas::new(&mut buf, 24, 24);
        c.draw_run(&run, 0, 0xFF_FFFFFF);
        let painted = buf.iter().filter(|p| **p == 0xFF_FFFFFF).count();
        assert!(painted > 0, "cell={cell} 时一个字也没画出来");
        let whole = (cell * cell) as usize;
        assert_eq!(painted % whole, 0, "点阵必须整块放大");
    }
}

#[test]
fn a_color_has_many_forms() {
    for (r, g, b) in [(0u32, 0u32, 0u32), (255, 255, 255), (1, 20, 255), (0x9A, 0xD4, 0x0F)] {
        let c = r << 16 | g << 8 | b;
        for text in [
            format!("#{c:06x}"),
            format!("{c:06x}"),
            format!("0x{c:06x}"),
            format!("rgb({r}, {g}, {b})"),
            format!("rgb({r},{g},{b})"),
            format!("{r},{g},{b}"),
            format!("{r} {g} {b}"),
            format!("{r}; {g}; {b}"),
        ] {
            assert_eq!(parse_color(&text), Some(c), "{text}");
        }
    }
}

#[test]
fn zeros_and_hundredths_stand_where_they_are_told() {
    for secs in [0u32, 59, 60, 3599] {
        let zero = format_time(secs, Pad::Zero);
        assert_eq!(zero.len(), 5);
        assert_eq!(format_time(secs, Pad::Full), format!("00:{zero}"));
    }
    for secs in [3600u32, 35_999, 359_999] {
        assert_eq!(format_time(secs, Pad::Zero), format_time(secs, Pad::Full));
        assert_eq!(format_time(secs, Pad::Full).len(), 8);
    }
    for cs in [0u32, 5, 5999, 6000, 360_001, 99_999_999] {
        for pad in [Pad::Plain, Pad::Zero, Pad::Full] {
            let fine = format!(".{:02}", cs % 100);
            let want = if pad == Pad::Plain && cs < 6000 {
                format!("{}{fine}s", cs / 100)
            } else {
                format_time(cs / 100, pad) + &fine
            };
            assert_eq!(format_centis(cs, pad), want);
        }
    }
}
