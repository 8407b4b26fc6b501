use tinyticker::effect::{
    draw, effect_pad, mix, Effect, Gradient, Row, EFFECTS, GRADIENT_PERIOD_MS,
};
use tinyticker::mask::Mask;
use tinyticker::render::{premultiply, Canvas};
use tinyticker::sine::SINE;
use tinyticker::text::{shape, Inks};

#[test]
fn effect_names_roundtrip() {
    for e in EFFECTS {
        assert_eq!(Effect::from_name(e.name()), Some(e));
    }
    assert_eq!(Effect::from_name("bloom"), None);
    for e in EFFECTS {
        let animates = matches!(e, Effect::Liquid | Effect::Aqua);
        assert_eq!(e.animated(), animates, "{} 的动画属性不对", e.name());
    }
}

#[test]
fn gradient_parsing_follows_catime_syntax() {
    let g = Gradient::parse("#FF5E96_#56C6FF").unwrap();
    assert!(g.is_gradient() && !g.animated());
    assert_eq!(g.tail(), 0x56C6FF);
    let g3 = Gradient::parse("#FF0000_#00FF00_#0000FF").unwrap();
    assert!(g3.animated());
    let one = Gradient::parse("#ABCDEF").unwrap();
    assert!(!one.is_gradient() && !one.animated());
    assert_eq!(one.at(1234, 10, 0), 0xABCDEF);
    assert!(Gradient::parse("#FF5E96_不是颜色").is_none());
    assert!(Gradient::parse("").is_none());
}

#[test]
fn gradient_endpoints_hit_the_stops() {
    let g = Gradient::parse("#000000_#FFFFFF").unwrap();
    assert_eq!(g.at(0, 100, 0), 0x000000);
    let tail = g.at(99, 100, 0);
    assert!(tail & 0xFF >= 0xFA && (tail >> 16) >= 0xFA, "末段该接近白: {tail:#08x}");
    let mid = g.at(50, 100, 0);
    assert!((0x7A..=0x86).contains(&(mid & 0xFF)), "中点该接近灰: {mid:#08x}");
    let g3 = Gradient::parse("#000000_#FF0000_#000000").unwrap();
    let c = g3.at(50, 100, 0);
    assert_eq!((c >> 16) & 0xFF, 0xFF, "中点该是红的");
    assert_eq!(c & 0x00FFFF, 0, "中点不该带绿蓝");
}

#[test]
fn animated_gradient_loops_without_a_seam() {
    let g = Gradient::parse("#112233_#445566_#778899").unwrap();
    let at = |ms| g.at(30, 100, ms);
    assert_eq!(at(0), at(GRADIENT_PERIOD_MS), "一整圈后该回到原色");
    let a = at(1000);
    let b = at(1001);
    for shift in [16, 8, 0] {
        let d = ((a >> shift) & 0xFF) as i32 - ((b >> shift) & 0xFF) as i32;
        assert!(d.abs() < 12, "相位 {shift} 处跳变 {d}");
    }
}

#[test]
fn box_blur_spreads_a_single_pixel() {
    let mut m = Mask::new(9, 9);
    m.put(4, 4, 255);
    let b = m.blurred(1);
    assert!(b.get(4, 4) < 255 && b.get(4, 4) > 0);
    assert!(b.get(3, 4) > 0 && b.get(5, 4) > 0);
    assert!(b.get(0, 0) == 0, "离得远的地方不该被糊到");
    assert_eq!(m.blurred(0).get(4, 4), 255);
}

#[test]
fn erode_and_subtract_isolate_an_outline() {
    let mut m = Mask::new(11, 11);
    for y in 2..9 {
        for x in 2..9 {
            m.put(x, y, 255);
        }
    }
    let rim = m.subtract(&m.eroded(1));
    assert!(rim.get(2, 2) > 0, "角上该有轮廓");
    assert!(rim.get(5, 5) == 0, "中心不该有轮廓");
}

#[test]
fn every_effect_paints_at_every_scale() {
    for e in EFFECTS {
        for scale in [1u32, 2, 5] {
            let grad = Gradient::parse("#FF5E96_#56C6FF_#FFE066").unwrap();
            let mut buf = vec![0xFF000000u32; 200 * 60];
            {
                let mut c = Canvas::new(&mut buf, 200, 60);
                let num = shape("25:00", scale, 10, &Inks::none());
                let status = shape("WORK 1", scale, 40, &Inks::none());
                let rows = [Row { run: &num, scale }, Row { run: &status, scale }];
                draw(&mut c, &rows, &grad, e, 700);
            }
            let painted = buf.iter().filter(|p| **p != 0xFF000000).count();
            assert!(painted > 20, "{} 在 {scale}× 下几乎没画东西（{painted} 像素）", e.name());
        }
    }
}

#[test]
fn degenerate_inputs_are_boring_not_fatal() {
    let grad = Gradient::solid(0xFFFFFF);
    let empty = shape("", 2, 0, &Inks::none());
    let rows = [Row { run: &empty, scale: 2 }];
    let mut buf: Vec<u32> = Vec::new();
    let mut c = Canvas::new(&mut buf, 0, 0);
    for e in EFFECTS {
        draw(&mut c, &rows, &grad, e, 0);
    }
    assert!(buf.is_empty());
}

#[test]
fn flat_and_mask_paths_agree_on_footprint() {
    let run = shape("1:00", 2, 10, &Inks::none());
    let color = premultiply(0xFFCC50, 0xFF);
    let mut flat = vec![0u32; 200 * 60];
    {
        let mut c = Canvas::new(&mut flat, 200, 60);
        c.draw_run_centered(&run, color);
    }
    let mut masked = vec![0u32; 200 * 60];
    {
        let mut c = Canvas::new(&mut masked, 200, 60);
        let rows = [Row { run: &run, scale: 2 }];
        draw(&mut c, &rows, &Gradient::parse("FFCC50_FFCC50").unwrap(), Effect::Plain, 0);
    }
    let lit = |buf: &[u32]| {
        buf.iter()
            .enumerate()
            .filter(|(_, p)| **p != 0)
            .map(|(i, _)| i)
            .collect::<Vec<_>>()
    };
    let (a, b) = (lit(&flat), lit(&masked));
    assert!(!a.is_empty(), "平面路径一个字都没画");
    assert_eq!(a, b, "两条路径的着墨位置不一致");
}

/// A part of the way; the numbers of the library are in units of `2^-64`.
fn part(t: f32) -> i128 {
    (f64::from(t) * 18_446_744_073_709_551_616.0) as i128
}

#[test]
fn mix_is_channel_wise_lerp() {
    assert_eq!(mix(0x000000, 0xFFFFFF, part(0.0)), 0x000000);
    assert_eq!(mix(0x000000, 0xFFFFFF, part(1.0)), 0xFFFFFF);
    assert_eq!(mix(0x000000, 0xFFFFFF, part(0.5)), 0x808080);
    assert_eq!(mix(0x102030, 0x405060, part(-1.0)), 0x102030);
    assert_eq!(mix(0x102030, 0x405060, part(2.0)), 0x405060);
}

/// A color between two, in floating point.
fn float_mix(a: u32, b: u32, t: f32) -> u32 {
    let t = t.clamp(0.0, 1.0);
    let ch = |shift: u32| {
        let x = ((a >> shift) & 0xFF) as f32;
        let y = ((b >> shift) & 0xFF) as f32;
        (x + (y - x) * t).round().clamp(0.0, 255.0) as u32
    };
    (ch(16) << 16) | (ch(8) << 8) | ch(0)
}

/// The color of a column, in floating point.
fn float_at(stops: &[u32], x: i32, width: u32, phase_ms: u32) -> u32 {
    let n = stops.len();
    let mut u = x.clamp(0, width.saturating_sub(1) as i32) as f32 / width.max(1) as f32;
    if n > 2 {
        let v = u + (phase_ms % GRADIENT_PERIOD_MS) as f32 * 2.0 / GRADIENT_PERIOD_MS as f32;
        let v = v - (v * 0.5).floor() * 2.0;
        u = if v < 1.0 { v } else { 2.0 - v };
    }
    let f = (u * (n - 1) as f32).clamp(0.0, (n - 1) as f32);
    let i = (f as usize).min(n - 2);
    float_mix(stops[i], stops[i + 1], f - i as f32)
}

#[test]
fn colors_are_those_of_single_precision() {
    for text in ["#000000_#FFFFFF", "#FF0000_#00FF7F_#0102FE", "#112233_#445566_#778899_#ABCDEF_#0F0F0F"] {
        let g = Gradient::parse(text).unwrap();
        for width in [0u32, 1, 7, 100, 333, 1920, 16_777_217] {
            for x in [-3, 0, 1, 2, 6, 31, 50, 99, 100, 332, 1919, 16_777_216] {
                for phase in [0u32, 1, 333, 999, 1000, 1357, 1999, 2000, 123_457, u32::MAX] {
                    assert_eq!(
                        g.at(x, width, phase),
                        float_at(&g.stops, x, width, phase),
                        "{text} {x}/{width} {phase}"
                    );
                }
            }
        }
    }
}

#[test]
fn sine_table_is_that_of_single_precision() {
    for (i, v) in SINE.iter().enumerate() {
        let want = ((i as f32 * std::f32::consts::TAU / 256.0).sin() * 1024.0) as i32;
        assert_eq!(*v, want, "{i}");
    }
}

/// How far apart two colors are in the component in which they are furthest.
fn furthest(a: u32, b: u32) -> u32 {
    [16, 8, 0].map(|s| ((a >> s) & 0xFF).abs_diff((b >> s) & 0xFF)).into_iter().max().unwrap()
}

#[test]
fn colors_flow_without_a_seam() {
    let g = Gradient::parse("#000000_#808080_#FFFFFF").unwrap();
    assert!(furthest(g.at(0, 100, 1999), g.at(0, 100, 2000)) <= 6);
    for text in ["#000000_#808080_#FFFFFF", "#FF0000_#00FF00_#0000FF_#FFFFFF_#000000"] {
        let g = Gradient::parse(text).unwrap();
        for x in [0, 1, 37, 50, 99] {
            for ms in 0..4100 {
                let d = furthest(g.at(x, 100, ms), g.at(x, 100, ms + 1));
                assert!(d <= 6, "{text} {x} {ms}: {d}");
            }
        }
    }
    assert_eq!(g.at(0, 100, 1000), 0xFFFFFF, "the far end after half a period");
    assert_eq!(g.at(0, 100, 0), 0x000000);
}

#[test]
fn two_equal_colors_draw_as_one() {
    let none = Inks::none();
    let run = shape("12:34", 3, 5, &none);
    for (w, h) in [(150u32, 40u32), (60, 20), (0, 0), (0, 7)] {
        let paint = |g: &Gradient| {
            let mut buf = vec![0xFF10_2030u32; (w * h) as usize + 5];
            let rows = [Row { run: &run, scale: 3 }];
            draw(&mut Canvas::new(&mut buf, w, h), &rows, g, Effect::Plain, 77);
            buf
        };
        let flat = paint(&Gradient::solid(0x33AAFF));
        let two = paint(&Gradient { stops: vec![0x33AAFF, 0x33AAFF] });
        assert_eq!(flat, two, "{w}x{h}");
        assert_eq!(flat.contains(&0xFF33_AAFF), w > 0);
        assert_eq!(flat[(w * h) as usize..], [0xFF10_2030; 5]);
    }
}

#[test]
fn an_effect_leaves_the_text_in_the_middle() {
    let none = Inks::none();
    for (text, cell) in [("12:34", 3), ("88", 2), ("123456789", 4)] {
        let run = shape(text, cell, 9, &none);
        let paint = |effect| {
            let mut buf = vec![0u32; 160 * 60];
            let rows = [Row { run: &run, scale: cell }];
            draw(&mut Canvas::new(&mut buf, 160, 60), &rows, &Gradient::solid(0x33AAFF), effect, 0);
            buf
        };
        let plain = paint(Effect::Plain);
        for effect in [Effect::Retro, Effect::Glow] {
            let with = paint(effect);
            for i in 0..plain.len() {
                if plain[i] == 0xFF33_AAFF {
                    assert_eq!(with[i], 0xFF33_AAFF, "{text} {i}");
                }
            }
        }
    }
}
