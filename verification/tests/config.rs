use tinyticker::anim::Throttle;
use tinyticker::config::{
    absolute, autostart_entry, autostart_path, config_path, expand_tilde, palette, preset_label,
    resolve_config_dir, Config, Palette, TextFont, Watch, ALPHA_STEPS, AUTOSTART_FILE,
    DEFAULT_PRESETS, MAX_PRESETS,
};
use tinyticker::effect::{Effect, Gradient, EFFECTS};
use tinyticker::lang::Language;
use tinyticker::render::Pad;
use tinyticker::timer::{Mode, Pomo};
use tinyticker::tray::IconMode;

#[test]
fn roundtrip_preserves_all_fields() {
    let cfg = Config {
        duration_secs: 1500,
        mode: Mode::Pomodoro,
        color_bg: 0x112233,
        color_done: Gradient::solid(0xAABBCC),
        bg_alpha: 120,
        zoom: vec!["1.75".into()],
        centiseconds: true,
        clock_seconds: false,
        time_pad: Pad::Full,
        tray_icon: IconMode::Gif,
        tray_gif: Some("~/pics/spin.gif".into()),
        pomo: Pomo { work: 1800, short_break: 600, long_break: 1200, rounds: 3, cycles: 2, seq: vec![] },
        presets: vec![90, 600, 5400],
        on_finish: Some("loginctl lock-session".into()),
        timeout_text: Some("时间到".into()),
        notify: false,
        notify_text: Some("该起来了".into()),
        text_source: Some("~/tmp/tinyticker-out.txt".into()),
        window_pos: Some((-10, 200)),
        ..Config::default()
    };
    let parsed = Config::from_str(&cfg.serialize("1.75"));
    assert_eq!(cfg, parsed);
}

#[test]
fn garbage_falls_back_to_defaults() {
    let cfg = Config::from_str("这不是配置\nfoo=bar\nduration=abc\ncolor_bg=zzz\n");
    assert_eq!(cfg, Config::default());
}

#[test]
fn tilde_expansion_only_applies_at_the_front() {
    let home = Some("/home/u");
    assert_eq!(expand_tilde("~/x/y", home), "/home/u/x/y");
    assert_eq!(expand_tilde("~", home), "/home/u");
    assert_eq!(expand_tilde("  ~/a  ", home), "/home/u/a");
    assert_eq!(expand_tilde("/tmp/~/a", home), "/tmp/~/a");
    assert_eq!(expand_tilde("/abs/path", home), "/abs/path");
    assert_eq!(expand_tilde("~/x", None), "~/x");
}

#[test]
fn palette_presets_are_distinct_and_in_gamut() {
    let all: Vec<Palette> = (0..6).map(|i| palette(i).unwrap()).collect();
    assert!(palette(6).is_none());
    assert_eq!(all[0].name, "默认");
    let d = Config::default();
    assert_eq!(all[0].bg, d.color_bg);
    assert_eq!(Gradient::solid(all[0].running), d.color_running);
    assert_eq!(Gradient::solid(all[0].paused), d.color_paused);
    assert_eq!(Gradient::solid(all[0].done), d.color_done);
    for p in &all {
        for c in [p.bg, p.running, p.paused, p.done] {
            assert!(c <= 0xFFFFFF, "{} 的颜色超出 24 位: {c:#08x}", p.name);
        }
    }
    for (i, a) in all.iter().enumerate() {
        for b in &all[i + 1..] {
            assert_ne!(a.name, b.name);
        }
    }
}

#[test]
fn alpha_steps_ascend_and_roundtrip() {
    assert_eq!(ALPHA_STEPS[0].1, 0);
    assert_eq!(ALPHA_STEPS[ALPHA_STEPS.len() - 1].1, 255);
    assert!(ALPHA_STEPS.windows(2).all(|w| w[0].1 < w[1].1));
    for &(label, value) in &ALPHA_STEPS {
        let cfg = Config::from_str(&format!("bg_alpha = {value}\n"));
        assert_eq!(cfg.bg_alpha, value, "{label} 档没走通");
    }
}

#[test]
fn partial_file_overrides_only_present_keys() {
    let cfg = Config::from_str("# 注释\nduration = 25m\ncolor_bg = #332211\n");
    assert_eq!(cfg.duration_secs, 1500);
    assert_eq!(cfg.color_bg, 0x332211);
    assert_eq!(cfg.mode, Mode::Countdown);
    assert_eq!(cfg.window_pos, None);
}

#[test]
fn presets_parse_both_separators_and_roundtrip() {
    assert_eq!(Config::from_str("presets = 1m,5m,1h\n").presets, vec![60, 300, 3600]);
    assert_eq!(Config::from_str("presets = 90 300\n").presets, vec![90, 300]);
    let cfg = Config { presets: vec![90, 5400], ..Config::default() };
    assert_eq!(Config::from_str(&cfg.serialize("1")).presets, cfg.presets);
    let d = Config::default();
    assert_eq!(Config::from_str(&d.serialize("1")).presets, DEFAULT_PRESETS.to_vec());
}

#[test]
fn one_bad_preset_token_rejects_the_whole_line() {
    let bad = [
        "presets = 1m,abc\n",
        "presets = 1m,0\n",
        "presets = 1m,25h\n",
        "presets = ,,\n",
    ];
    for line in bad {
        assert_eq!(
            Config::from_str(line).presets,
            DEFAULT_PRESETS.to_vec(),
            "非法预设没被整条拒绝: {line}"
        );
    }
    let too_many = format!("presets = {}\n", vec!["1m"; MAX_PRESETS + 1].join(","));
    assert_eq!(Config::from_str(&too_many).presets, DEFAULT_PRESETS.to_vec());
    assert_eq!(
        Config::from_str(&format!("presets = {}\n", vec!["1m"; MAX_PRESETS].join(",")))
            .presets
            .len(),
        MAX_PRESETS,
        "刚好 24 段该收"
    );
}

#[test]
fn spaces_split_presets_rather_than_compose() {
    assert_eq!(Config::from_str("presets = 1h 30m\n").presets, vec![3600, 1800]);
    assert_eq!(Config::from_str("presets = 1h30m\n").presets, vec![5400]);
}

#[test]
fn preset_label_reads_like_chinese() {
    let cases = [
        (45, "45 秒"),
        (60, "1 分"),
        (90, "1 分 30 秒"),
        (300, "5 分"),
        (1500, "25 分"),
        (3600, "1 小时"),
        (5400, "1 小时 30 分"),
        (86_400, "24 小时"),
    ];
    for (secs, want) in cases {
        assert_eq!(preset_label(secs), want, "{secs} 秒的标签不对");
    }
}

#[test]
fn pomo_defaults_keep_the_old_endless_behavior() {
    let p = Pomo::default();
    assert_eq!((p.work, p.short_break), (1500, 300));
    assert_eq!((p.rounds, p.cycles, p.long_break), (4, 0, 900));
    assert_eq!(Config::default().pomo, p);
}

#[test]
fn gradient_colors_and_text_effect_parse_and_roundtrip() {
    let cfg = Config::from_str(
        "color_running = #FF5E96_#56C6FF\ncolor_done = 50dc78\ntext_effect = neon\n",
    );
    assert_eq!(cfg.color_running, Gradient::parse("#FF5E96_#56C6FF").unwrap());
    assert_eq!(cfg.color_done, Gradient::solid(0x50DC78));
    assert_eq!(cfg.text_effect, Effect::Neon);
    let text = cfg.serialize("1");
    assert!(text.contains("color_done = 50dc78\n"), "单色写法变了: {text}");
    let zoomed = Config { zoom: vec!["1".into()], ..cfg };
    assert_eq!(Config::from_str(&text), zoomed);
    let bad = Config::from_str("color_bg = #111111_#222222\ntext_effect = bloom\n");
    assert_eq!(bad.color_bg, Config::default().color_bg);
    assert_eq!(bad.text_effect, Effect::Plain);
}

#[test]
fn color_syntaxes_survive_the_line_parser() {
    let cfg = Config::from_str(
        "color_paused = #f57\ncolor_done = rgb(80, 220, 120)\ncolor_running = teal\n",
    );
    assert_eq!(cfg.color_paused, Gradient::solid(0xFF5577), "三位简写");
    assert_eq!(cfg.color_done, Gradient::solid(0x50DC78), "rgb() 带空格");
    assert_eq!(cfg.color_running, Gradient::solid(0x008080), "CSS 名");
    let mixed = Config::from_str("color_running = gold_rgb(0, 128, 128)\n");
    assert_eq!(mixed.color_running, Gradient::parse("#FFD700_#008080").unwrap());
    let bad = Config::from_str("color_running = notacolor\n");
    assert_eq!(bad.color_running, Config::default().color_running);
}

#[test]
fn every_effect_name_survives_the_config_roundtrip() {
    for e in EFFECTS {
        let cfg = Config::from_str(&format!("text_effect = {}\n", e.name()));
        assert_eq!(cfg.text_effect, e, "{} 没走通", e.name());
        let again = Config::from_str(&cfg.serialize("1"));
        assert_eq!(again.text_effect, e, "{} 序列化后丢了", e.name());
    }
}

#[test]
fn pomo_new_keys_parse_and_reject_out_of_range() {
    let cfg = Config::from_str("pomo_long_break = 20m\npomo_rounds = 6\npomo_cycles = 2\n");
    assert_eq!((cfg.pomo.long_break, cfg.pomo.rounds, cfg.pomo.cycles), (1200, 6, 2));
    let off = Config::from_str("pomo_long_break = 0\npomo_cycles = 0\n");
    assert_eq!((off.pomo.long_break, off.pomo.cycles), (0, 0));
    let bad = Config::from_str("pomo_rounds = 0\npomo_cycles = 101\npomo_long_break = 25h\n");
    assert_eq!(bad.pomo, Pomo::default());
}

#[test]
fn boolean_keys_parse_the_same_aliases() {
    let get = |cfg: &Config, key: &str| match key {
        "click_through" => cfg.click_through,
        "clock_12h" => cfg.clock_12h,
        "clock_seconds" => cfg.clock_seconds,
        "notify" => cfg.notify,
        _ => cfg.centiseconds,
    };
    for key in ["click_through", "clock_12h", "clock_seconds", "notify", "centiseconds"] {
        for on in ["true", "1", "yes", "on", "TRUE", "Yes"] {
            let cfg = Config::from_str(&format!("{key} = {on}\n"));
            assert!(get(&cfg, key), "{key} = {on} 应解析为 true");
        }
        for off in ["false", "0", "no", "off", "", "whatever"] {
            let cfg = Config::from_str(&format!("{key} = {off}\n"));
            assert!(!get(&cfg, key), "{key} = {off} 应解析为 false");
        }
    }
    assert!(!Config::default().click_through);
    assert!(!Config::default().centiseconds);
    assert!(Config::default().clock_seconds);
    assert!(Config::default().notify);
}

#[test]
fn time_pad_parses_and_rejects_unknown() {
    assert_eq!(Config::from_str("time_pad = zero\n").time_pad, Pad::Zero);
    assert_eq!(Config::from_str("time_pad = full\n").time_pad, Pad::Full);
    assert_eq!(Config::from_str("time_pad = half\n").time_pad, Pad::Plain);
    for p in [Pad::Plain, Pad::Zero, Pad::Full] {
        let cfg = Config { time_pad: p, ..Config::default() };
        assert_eq!(Config::from_str(&cfg.serialize("1")).time_pad, p);
    }
}

#[test]
fn text_font_round_trips_all_three_states() {
    assert_eq!(Config::from_str("text_font = off\n").text_font, TextFont::Off);
    assert_eq!(Config::from_str("text_font = none\n").text_font, TextFont::Off);
    assert_eq!(Config::from_str("text_font = auto\n").text_font, TextFont::Auto);
    assert_eq!(Config::from_str("").text_font, TextFont::Auto);
    assert_eq!(Config::from_str("text_font =\n").text_font, TextFont::Auto);
    let path = "~/fonts/My Han.ttf";
    let cfg = Config::from_str(&format!("text_font = {path}\n"));
    assert_eq!(cfg.text_font, TextFont::Path(path.to_string()));
    let again = Config::from_str(&cfg.serialize("1"));
    assert_eq!(again.text_font, cfg.text_font);
    assert!(cfg.serialize("1").contains("text_font = ~/fonts/My Han.ttf\n"));
}

#[test]
fn window_position_needs_both_axes() {
    let cfg = Config::from_str("window_x = 5\nwindow_y = -7\n");
    assert_eq!(cfg.window_pos, Some((5, -7)));
}

#[test]
fn empty_or_relative_env_values_are_ignored() {
    assert_eq!(absolute(None), None);
    assert_eq!(absolute(Some("")), None);
    assert_eq!(absolute(Some("relative/dir")), None);
    assert_eq!(absolute(Some("/tmp")).as_deref(), Some("/tmp"));
}

#[test]
fn watch_notices_external_edits() {
    let mut w = Watch::new(Some((14, 1)), 5_000);
    let t0 = 5_000;
    assert!(!w.changed(t0, Some((14, 1))), "刚建立基准不该立刻算变了");
    assert!(!w.changed(t0, Some((16, 2))), "节流窗口内不该去 stat");
    assert!(!w.due(t0));
    assert!(w.due(t0 + 300));
    assert!(w.changed(t0 + 300, Some((16, 2))), "文件变了要认出来");
    assert!(!w.changed(t0 + 600, Some((16, 2))), "同一份内容不该报第二次");
    w.sync(Some((15, 3)));
    assert!(!w.changed(t0 + 1000, Some((15, 3))), "自己的写入该被抹掉");
    assert!(!w.changed(t0 + 1300, None));
    assert!(w.changed(t0 + 1600, Some((15, 4))));
    assert!(!Watch::new(None, t0).changed(t0 + 2000, None));
}

#[test]
fn config_dir_precedence() {
    let app = "tinyticker";
    assert_eq!(
        resolve_config_dir(Some("/tmp/tt-a"), Some("/xdg"), Some("/home")),
        Some("/tmp/tt-a".to_string())
    );
    assert_eq!(
        resolve_config_dir(Some("relative/dir"), None, None),
        Some("relative/dir".to_string())
    );
    assert_eq!(
        resolve_config_dir(None, Some("/xdg"), Some("/home")),
        Some(format!("/xdg/{app}"))
    );
    assert_eq!(
        resolve_config_dir(None, None, Some("/home")),
        Some(format!("/home/.config/{app}"))
    );
    assert_eq!(
        resolve_config_dir(None, Some("relative/xdg"), Some("/home")),
        Some(format!("/home/.config/{app}"))
    );
    assert_eq!(resolve_config_dir(None, None, None), None);
    assert_eq!(resolve_config_dir(Some(""), Some(""), Some("")), None);
}

#[test]
fn autostart_entry_has_the_keys_hosts_read() {
    let s = autostart_entry("/usr/bin/tinyticker");
    for key in [
        "[Desktop Entry]",
        "Type=Application",
        "Name=TinyTicker",
        "Exec=/usr/bin/tinyticker",
        "Terminal=false",
        "X-GNOME-Autostart-enabled=true",
    ] {
        assert!(s.contains(key), "条目里缺 {key}:\n{s}");
    }
    assert_eq!(AUTOSTART_FILE, "io.github.panzhifu.tinyticker.desktop");
}

#[test]
fn config_path_ends_with_app_and_file() {
    assert_eq!(
        config_path(None, None, Some("/home/u")).as_deref(),
        Some("/home/u/.config/tinyticker/config.conf")
    );
    assert_eq!(
        config_path(Some("/tmp/x"), Some("/xdg"), None).as_deref(),
        Some("/tmp/x/config.conf")
    );
    assert_eq!(config_path(None, None, None), None);
    assert_eq!(
        autostart_path(Some("/xdg"), None),
        Some(format!("/xdg/autostart/{AUTOSTART_FILE}"))
    );
}

#[test]
fn steps_of_a_pomodoro_are_configured_in_one_line() {
    let cfg = Config::from_str("pomo_seq = 25m,5m,15m");
    assert_eq!(cfg.pomo.seq, [1500, 300, 900]);
    assert_eq!(Config { pomo: Pomo { seq: vec![], ..cfg.pomo.clone() }, ..cfg.clone() }, Config::default());
    let zoom = vec!["1.00".to_string()];
    assert_eq!(Config::from_str(&cfg.serialize("1.00")), Config { zoom, ..cfg.clone() });
    assert!(cfg.serialize("1.00").contains("pomo_seq = "));
    assert!(!Config::default().serialize("1.00").contains("pomo_seq"));
    for bad in ["25m,x", "25m,0", "", "abc"] {
        let text = format!("pomo_seq = 10,20\npomo_seq = {bad}\n");
        let want: &[u32] = if bad.is_empty() { &[] } else { &[10, 20] };
        assert_eq!(Config::from_str(&text).pomo.seq, want, "{bad}");
    }
    let many = |n: u32| (1..=n).map(|i| format!("{i}")).collect::<Vec<_>>().join(",");
    assert_eq!(Config::from_str(&format!("pomo_seq = {}", many(16))).pomo.seq.len(), 16);
    assert!(Config::from_str(&format!("pomo_seq = {}", many(17))).pomo.seq.is_empty());
}

#[test]
fn sound_size_and_language_are_configured() {
    let d = Config::default();
    assert_eq!(
        (d.alarm_sound.clone(), d.alarm_volume, d.status_font_px, d.language),
        (None, 100, 12, Language::Auto)
    );
    let text = "alarm_sound = ~/a.wav\nalarm_volume = 35\nstatus_font_px = 18\nlanguage = zh\n";
    let cfg = Config::from_str(text);
    assert_eq!(cfg.alarm_sound.as_deref(), Some("~/a.wav"));
    assert_eq!((cfg.alarm_volume, cfg.status_font_px, cfg.language), (35, 18, Language::Zh));
    let zoom = vec!["1.00".to_string()];
    assert_eq!(Config::from_str(&cfg.serialize("1.00")), Config { zoom, ..cfg });
    let bad = "alarm_volume = 101\nstatus_font_px = 7\nlanguage = fr\nalarm_sound =\n";
    assert_eq!(Config::from_str(bad), d);
    let edges = Config::from_str("alarm_volume = 0\nstatus_font_px = 24");
    assert_eq!((edges.alarm_volume, edges.status_font_px), (0, 24));
    assert_eq!(Config::from_str("status_font_px = 25").status_font_px, 12);
}

#[test]
fn the_speed_of_the_animation_is_configured() {
    let d = Config::default();
    assert_eq!((d.tray_throttle, d.tray_gif_speed), (Throttle::Off, 200));
    let cfg = Config::from_str("tray_throttle = memory\ntray_gif_speed = 10\n");
    assert_eq!((cfg.tray_throttle, cfg.tray_gif_speed), (Throttle::Memory, 10));
    let zoom = vec!["1.00".to_string()];
    assert_eq!(Config::from_str(&cfg.serialize("1.00")), Config { zoom, ..cfg });
    assert_eq!(Config::from_str("tray_throttle = disk\ntray_gif_speed = 9\n"), d);
    assert_eq!(Config::from_str("tray_gif_speed = 201\n"), d);
}

#[test]
fn the_twenty_fifth_preset_is_one_too_many() {
    let of = |n: usize| Config::from_str(&format!("presets = {}\n", vec!["1m"; n].join(","))).presets;
    assert_eq!(of(24), vec![60; 24]);
    assert_eq!(of(25), DEFAULT_PRESETS.to_vec());
}
