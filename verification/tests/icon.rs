use tinyticker::anim::Frame;
use tinyticker::icon::{clock_pixmap, gauge_pixmap, gif_pixmap, icon_pixmap, level_color, Shown, DIAL};
use tinyticker::sysinfo::{Battery, Sources};
use tinyticker::tray::IconMode;

fn sources() -> Sources {
    Sources {
        cpu: 40,
        mem: 70,
        battery: Some(Battery { percent: 15, charging: true }),
        net_down: 0,
        net_up: 0,
        uptime_secs: 0,
    }
}

#[test]
fn each_mode_has_its_picture() {
    let s = sources();
    let now = (10, 8, 30);
    assert_eq!(icon_pixmap(IconMode::Clock, &s, now, None), clock_pixmap(now));
    assert_eq!(icon_pixmap(IconMode::Cpu, &s, now, None), gauge_pixmap(Some(40), false));
    assert_eq!(icon_pixmap(IconMode::Memory, &s, now, None), gauge_pixmap(Some(70), false));
    assert_eq!(icon_pixmap(IconMode::Battery, &s, now, None), gauge_pixmap(Some(15), true));
    let none = Sources { battery: None, ..sources() };
    assert_eq!(icon_pixmap(IconMode::Battery, &none, now, None), gauge_pixmap(None, false));
    // without an animation the time shows
    assert_eq!(icon_pixmap(IconMode::Gif, &s, now, None), clock_pixmap(now));
    let f = Frame { rgba: vec![10, 20, 30, 40], delay: 100 };
    let (w, h, px) = icon_pixmap(IconMode::Gif, &s, now, Some((&f, 1, 1)));
    assert_eq!((w, h, px.len()), (32, 32, 4096));
    assert!(px.chunks(4).all(|p| p == [40, 10, 20, 30]));
}

#[test]
fn frames_are_stretched_to_the_icon() {
    // two pixels side by side: each fills half of each row
    let f = Frame { rgba: vec![1, 2, 3, 255, 4, 5, 6, 128], delay: 0 };
    let px = gif_pixmap(&f, 2, 1);
    assert_eq!(&px[0..4], [255, 1, 2, 3]);
    assert_eq!(&px[15 * 4..16 * 4], [255, 1, 2, 3]);
    assert_eq!(&px[16 * 4..17 * 4], [128, 4, 5, 6]);
    assert_eq!(&px[31 * 4..32 * 4], [128, 4, 5, 6]);
    assert_eq!(px.len(), 4096);
}

#[test]
fn levels_have_their_colors() {
    for (p, color) in [
        (0u8, (80, 220, 120)),
        (59, (80, 220, 120)),
        (60, (255, 200, 80)),
        (84, (255, 200, 80)),
        (85, (240, 90, 90)),
        (255, (240, 90, 90)),
    ] {
        assert_eq!(level_color(p), color, "{p}");
    }
    let (w, h, px) = gauge_pixmap(Some(100), false);
    assert_eq!((w, h, px.len()), (32, 32, 4096));
    assert!(px.chunks(4).any(|c| c == [255, 240, 90, 90]));
}

#[test]
fn dial_goes_round_clockwise() {
    assert_eq!(DIAL[0], (0, -4096));
    assert!(DIAL[1..30].iter().all(|d| d.0 > 0) && DIAL[31..].iter().all(|d| d.0 < 0));
    assert!(DIAL[17..44].iter().all(|d| d.1 > 0) && DIAL[..15].iter().all(|d| d.1 < 0));
    for d in DIAL {
        let long = f64::from(d.0 * d.0 + d.1 * d.1).sqrt();
        assert!((long - 4096.0).abs() < 41.0, "{d:?}");
    }
}

#[test]
fn only_another_picture_is_announced() {
    let mut s = Shown { pixmap: vec![1, 2], at: 5_000 };
    assert!(!s.look_due(5_999));
    assert!(!s.look_due(4_000));
    assert!(s.look_due(6_000));
    assert!(!s.look_due(6_500));
    assert!(s.look_due(7_000));
    assert!(!s.replace(vec![1, 2]));
    assert!(s.replace(vec![1, 3]));
    assert!(!s.replace(vec![1, 3]));
    assert!(s.replace(vec![1]));
    assert!(s.replace(Vec::new()));
    assert!(s.pixmap.is_empty());
}
