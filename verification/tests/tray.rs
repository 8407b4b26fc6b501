use tinyticker::config::{palette, Config, ALPHA_STEPS, PALETTES};
use tinyticker::effect::Gradient;
use tinyticker::icon::{clock_pixmap, dial_dir, gauge_pixmap};
use tinyticker::timer::Mode;
use tinyticker::tray::{build_nodes, Check, Command, IconMode, Kind, State};

/// The direction of a place on the dial; the numbers of the library are in units of `2^-64`.
fn dial(pos: f32) -> (f32, f32) {
    let unit = 18_446_744_073_709_551_616.0f64;
    let (x, y) = dial_dir((f64::from(pos) * unit) as u128);
    ((x as f64 / unit) as f32, (y as f64 / unit) as f32)
}

fn filled(px: &[u8]) -> usize {
    px.chunks(4)
        .filter(|p| p[0] != 0 && !matches!((p[1], p[2], p[3]), (255, 255, 255) | (15, 15, 20)))
        .count()
}

#[test]
fn gauge_fills_monotonically() {
    let counts = [0u8, 25, 50, 75, 100].map(|p| filled(&gauge_pixmap(Some(p), false).2));
    assert!(counts.windows(2).all(|w| w[0] < w[1]), "水位应随占用率单调上升: {counts:?}");
    assert!(counts[4] > 450, "满盘像素过少: {}", counts[4]);
    assert!(counts[0] < 10, "0% 不该有明显填充: {}", counts[0]);
    assert!(counts[1] > counts[0] && counts[1] < counts[2]);
}

#[test]
fn dial_table_matches_true_trig() {
    for i in 0..60 {
        let deg = i as f32 * 6.0;
        let ideal = (deg.to_radians().sin(), -deg.to_radians().cos());
        let got = dial(i as f32);
        assert!(
            (got.0 - ideal.0).abs() < 0.01 && (got.1 - ideal.1).abs() < 0.01,
            "第 {i} 格偏了: {got:?} vs {ideal:?}"
        );
        let len = (got.0 * got.0 + got.1 * got.1).sqrt();
        assert!((len - 1.0).abs() < 0.01, "第 {i} 格不是单位向量: {len}");
    }
    assert_eq!(dial(0.0), (0.0, -1.0));
    assert!(dial(15.0).0 > 0.99 && dial(15.0).1.abs() < 0.01);
    assert!(dial(30.0).1 > 0.99 && dial(30.0).0.abs() < 0.01);
    assert!(dial(45.0).0 < -0.99 && dial(45.0).1.abs() < 0.01);
    for i in 0..14 {
        assert!(dial(i as f32 + 0.5).0 > dial(i as f32).0);
    }
}

#[test]
fn empty_battery_shows_hollow_face() {
    assert_eq!(filled(&gauge_pixmap(None, false).2), 0);
}

#[test]
fn clock_hands_stay_inside_the_face() {
    for m in (0..60).chain([59]) {
        for h in [0u32, 3, 6, 9, 12, 18, 23] {
            let px = clock_pixmap((h, m, 0)).2;
            assert_eq!(px.len(), 32 * 32 * 4);
        }
    }
}

#[test]
fn icon_mode_names_roundtrip() {
    for m in [IconMode::Clock, IconMode::Cpu, IconMode::Memory, IconMode::Battery] {
        assert_eq!(IconMode::from_name(m.name()), Some(m));
    }
    assert_eq!(IconMode::from_name("disk"), None);
}

#[test]
fn menu_nodes_are_well_formed() {
    let n = build_nodes(&Config::default().presets, true);
    assert_eq!(n[0].kind, Kind::Root);
    for (id, node) in n.iter().enumerate().skip(1) {
        match node.kind {
            Kind::Button => {
                assert!(node.command.is_some(), "按钮 {id} 没绑命令");
                assert!(!node.label.is_empty(), "按钮 {id} 没有标签");
                assert!(node.children.is_empty(), "按钮 {id} 不该有孩子");
            }
            Kind::Separator => {
                assert!(node.command.is_none() && node.children.is_empty());
            }
            Kind::Submenu => {
                assert!(!node.children.is_empty(), "子菜单 {id} 是空的");
                assert!(node.command.is_none(), "子菜单 {id} 不该绑命令");
            }
            Kind::Root => panic!("只有 0 号节点是 Root"),
        }
        for c in &node.children {
            assert!((*c as usize) < n.len(), "{id} 的孩子 {c} 越界");
            assert_ne!(*c, id as i32, "{id} 把自己列为孩子");
        }
    }
    let mut seen: Vec<i32> = n.iter().flat_map(|x| x.children.clone()).collect();
    let total = seen.len();
    seen.sort_unstable();
    seen.dedup();
    assert_eq!(seen.len(), total, "有节点被挂了两个父亲");
}

#[test]
fn appearance_submenu_reaches_every_preset() {
    let n = build_nodes(&Config::default().presets, true);
    let look = n.iter().find(|x| x.label == "外观").expect("没有「外观」子菜单");
    assert_eq!(look.children.len(), 3, "外观下应是 透明度 + 配色 + 图标 三个子菜单");
    let acts = |parent: i32| -> Vec<Option<Command>> {
        n[parent as usize].children.iter().map(|i| n[*i as usize].command.clone()).collect()
    };
    let (alpha_id, palette_id, icon_id) =
        (look.children[0], look.children[1], look.children[2]);
    assert_eq!(n[alpha_id as usize].label, "背景透明度");
    assert_eq!(n[palette_id as usize].label, "配色预设");
    assert_eq!(n[icon_id as usize].label, "图标内容");

    let alpha = acts(alpha_id);
    assert_eq!(alpha.len(), ALPHA_STEPS.len());
    for (k, act) in alpha.iter().enumerate() {
        assert_eq!(
            *act,
            Some(Command::SetAlpha(ALPHA_STEPS[k].1)),
            "第 {k} 档透明度接错"
        );
    }
    let palette = acts(palette_id);
    assert_eq!(palette.len(), PALETTES.len());
    for (k, id) in n[palette_id as usize].children.iter().enumerate() {
        assert_eq!(n[*id as usize].command, Some(Command::SetPalette(k)));
        assert_eq!(n[*id as usize].label, PALETTES[k].0, "菜单标签与预设对不上");
    }
    let icons = acts(icon_id);
    let expect =
        [IconMode::Clock, IconMode::Cpu, IconMode::Memory, IconMode::Battery, IconMode::Gif];
    assert_eq!(icons.len(), expect.len());
    for (k, id) in n[icon_id as usize].children.iter().enumerate() {
        assert_eq!(n[*id as usize].command, Some(Command::SetIcon(expect[k])));
    }
}

#[test]
fn preset_submenu_follows_the_config_list() {
    let n = build_nodes(&[90, 1500, 5400], true);
    let submenu = n.iter().find(|x| x.label == "时长预设").expect("没有「时长预设」子菜单");
    let items: Vec<(String, Option<Command>)> = submenu
        .children
        .iter()
        .map(|i| (n[*i as usize].label.clone(), n[*i as usize].command.clone()))
        .collect();
    assert_eq!(
        items,
        vec![
            ("⏱ 1 分 30 秒".to_string(), Some(Command::Preset(90))),
            ("⏱ 25 分".to_string(), Some(Command::Preset(1500))),
            ("⏱ 1 小时 30 分".to_string(), Some(Command::Preset(5400))),
        ]
    );
}

#[test]
fn gif_item_is_disabled_without_a_path() {
    let cfg = Config::default();
    let s = State::from_config(&cfg);
    assert!(!s.enabled(&Command::SetIcon(IconMode::Gif)), "没配路径该不可点");
    assert!(s.enabled(&Command::SetIcon(IconMode::Clock)));
    assert!(s.enabled(&Command::SetAlpha(96)), "非图标项不该被牵连");

    let with = Config { tray_gif: Some("~/p/s.gif".into()), ..Config::default() };
    assert!(State::from_config(&with).enabled(&Command::SetIcon(IconMode::Gif)));
    let blank = Config { tray_gif: Some("   ".into()), ..Config::default() };
    assert!(!State::from_config(&blank).enabled(&Command::SetIcon(IconMode::Gif)));

    let labelled = build_nodes(&cfg.presets, false);
    let gif = labelled.iter().find(|x| x.label.starts_with("GIF 动图")).expect("菜单里该有 GIF 项");
    assert!(gif.label.contains("tray_gif"), "标签该说明为什么不可用: {}", gif.label);
    let ok = build_nodes(&cfg.presets, true);
    assert_eq!(ok.iter().find(|x| x.label.starts_with("GIF")).unwrap().label, "GIF 动图");
}

#[test]
fn only_radio_items_are_checkable() {
    let n = build_nodes(&Config::default().presets, true);
    for node in &n {
        let Some(cmd) = &node.command else { continue };
        let checkable = cmd.check().is_some();
        let in_radio = matches!(
            cmd,
            Command::SetMode(_) | Command::SetAlpha(_) | Command::SetPalette(_) | Command::SetIcon(_)
        );
        assert_eq!(checkable, in_radio, "{} 的勾选属性推错了", node.label);
    }
}

#[test]
fn checked_state_mirrors_menu_clicks() {
    let cfg = Config { mode: Mode::Countdown, bg_alpha: 96, ..Config::default() };
    let mut s = State::from_config(&cfg);
    assert!(s.checked(Check::Mode(Mode::Countdown)));
    assert!(!s.checked(Check::Mode(Mode::Pomodoro)));
    assert!(s.checked(Check::Alpha(96)));
    assert!(s.checked(Check::Icon(IconMode::Clock)));

    s.note(&Command::SetMode(Mode::Pomodoro));
    assert!(s.checked(Check::Mode(Mode::Pomodoro)));
    assert!(!s.checked(Check::Mode(Mode::Countdown)), "旧的那项必须取消勾选");

    s.note(&Command::SetAlpha(0));
    assert!(s.checked(Check::Alpha(0)) && !s.checked(Check::Alpha(96)));

    s.note(&Command::Preset(600));
    s.note(&Command::Start);
    assert!(s.checked(Check::Mode(Mode::Pomodoro)));
}

#[test]
fn palette_matches_only_when_all_four_colors_agree() {
    let p = palette(2).unwrap();
    let cfg = Config {
        color_bg: p.bg,
        color_running: Gradient::solid(p.running),
        color_paused: Gradient::solid(p.paused),
        color_done: Gradient::solid(p.done),
        ..Config::default()
    };
    assert_eq!(State::from_config(&cfg).palette, Some(2));

    let off = Config { color_done: Gradient::solid(0x123456), ..cfg };
    assert_eq!(State::from_config(&off).palette, None);
    let st = State::from_config(&off);
    for i in 0..PALETTES.len() {
        assert!(!st.checked(Check::Palette(i)), "自定义配色不该勾中第 {i} 套");
    }
    let mut st = st;
    st.note(&Command::SetPalette(4));
    assert!(st.checked(Check::Palette(4)) && !st.checked(Check::Palette(2)));
}
