use tinyticker::config::Config;
use tinyticker::ipc::{
    decode, encode, payload, read_line, received, socket_path, unfinished, Intent, MAX_LINE, SEP,
};
use tinyticker::timer::Mode;
use tinyticker::tray::Command;

fn parse(args: &[String]) -> Result<Intent, String> {
    Intent::parse(args, (10, 0, 0))
}

#[test]
fn flags_map_to_modes() {
    for (flag, mode) in [
        ("-s", Mode::Stopwatch),
        ("-c", Mode::Countdown),
        ("-p", Mode::Pomodoro),
        ("-k", Mode::Clock),
    ] {
        let intent = parse(&[flag.to_string()]).unwrap();
        assert_eq!(intent.mode, Some(mode), "{flag} 没映射到模式");
    }
    assert_eq!(parse(&[]).unwrap(), Intent::default());
}

#[test]
fn command_order_is_mode_then_duration_then_start() {
    let intent = parse(&["-p".into(), "600".into(), "-r".into()]).unwrap();
    assert_eq!(
        intent.commands(),
        vec![Command::SetMode(Mode::Pomodoro), Command::Preset(600)]
    );
    assert_eq!(
        parse(&["-r".into()]).unwrap().commands(),
        vec![Command::Start]
    );
    assert!(parse(&[]).unwrap().commands().is_empty());
}

#[test]
fn and_arms_a_one_shot_finish_command() {
    let i =
        parse(&["25m".into(), "--and".into(), "loginctl lock-session".into()]).unwrap();
    assert_eq!(i.duration, Some(1500));
    assert_eq!(i.and_then.as_deref(), Some("loginctl lock-session"));
    assert_eq!(
        i.commands(),
        vec![
            Command::Preset(1500),
            Command::ArmFinish("loginctl lock-session".into())
        ],
        "武装命令排在时长之后"
    );
    assert_eq!(
        parse(&["--and=notify-send 好了".into()])
            .unwrap()
            .and_then
            .as_deref(),
        Some("notify-send 好了")
    );
    assert!(
        parse(&["--then".into(), "x".into()])
            .unwrap()
            .and_then
            .is_some()
    );
    assert!(parse(&["--and".into()]).is_err());
    assert!(
        parse(&["--and".into(), "25m".into()])
            .unwrap()
            .and_then
            .as_deref()
            == Some("25m"),
        "带值参数吃掉的那一条不该再被当成时长"
    );
}

#[test]
fn visibility_flags_map_to_set_hidden() {
    assert_eq!(
        parse(&["--hide".into()]).unwrap().hidden,
        Some(true)
    );
    assert_eq!(
        parse(&["--show".into()]).unwrap().hidden,
        Some(false)
    );
    assert_eq!(parse(&[]).unwrap().hidden, None);
    assert_eq!(
        parse(&["--hide".into()]).unwrap().commands(),
        vec![Command::SetHidden(true)]
    );
    assert_eq!(
        parse(&["--hide".into(), "25m".into()])
            .unwrap()
            .commands(),
        vec![Command::SetHidden(true), Command::Preset(1500)],
        "可见性该排在其它命令之前"
    );
}

#[test]
fn edit_flags_map_to_set_edit() {
    assert_eq!(parse(&["--edit".into()]).unwrap().edit, Some(true));
    assert_eq!(
        parse(&["--no-edit".into()]).unwrap().edit,
        Some(false)
    );
    assert_eq!(parse(&[]).unwrap().edit, None);
    assert_eq!(
        parse(&["--edit".into()]).unwrap().commands(),
        vec![Command::SetEdit(true)]
    );
    assert_eq!(
        parse(&["--no-edit".into(), "25m".into()])
            .unwrap()
            .commands(),
        vec![Command::SetEdit(false), Command::Preset(1500)],
    );
    let mut cfg = Config::default();
    parse(&["--edit".into()]).unwrap().apply(&mut cfg);
    assert_eq!(cfg, Config::default(), "编辑态不该落到配置里");
}

#[test]
fn action_flags_map_to_timer_commands() {
    assert_eq!(
        parse(&["--pause".into()]).unwrap().commands(),
        vec![Command::Pause]
    );
    assert_eq!(
        parse(&["--toggle".into()]).unwrap().commands(),
        vec![Command::Toggle]
    );
    assert_eq!(
        parse(&["--reset".into()]).unwrap().commands(),
        vec![Command::Reset]
    );
    assert_eq!(
        parse(&["25m".into(), "--pause".into()])
            .unwrap()
            .commands(),
        vec![Command::Preset(1500), Command::Pause]
    );
}

#[test]
fn input_flag_maps_to_the_input_command() {
    assert!(parse(&["--input".into()]).unwrap().input);
    assert_eq!(
        parse(&["--input".into()]).unwrap().commands(),
        vec![Command::InputTime]
    );
    assert_eq!(
        parse(&["--edit".into(), "--input".into(), "-s".into()])
            .unwrap()
            .commands(),
        vec![
            Command::SetEdit(true),
            Command::InputTime,
            Command::SetMode(Mode::Stopwatch)
        ]
    );
    let mut cfg = Config::default();
    parse(&["--input".into()]).unwrap().apply(&mut cfg);
    assert_eq!(cfg, Config::default());
}

#[test]
fn centis_flag_is_a_set_not_a_toggle() {
    let i = parse(&["--centis".into()]).unwrap();
    assert_eq!(i.centiseconds, Some(true));
    assert_eq!(i.commands(), vec![Command::SetCentiseconds(true)]);
    assert_eq!(
        parse(&["--no-centis".into()]).unwrap().commands(),
        vec![Command::SetCentiseconds(false)]
    );
    let mut cfg = Config::default();
    i.apply(&mut cfg);
    assert!(cfg.centiseconds, "它该进配置，下次冷启动也记得");
}

#[test]
fn apply_only_overwrites_what_was_given() {
    let mut cfg = Config::default();
    let before = cfg.duration_secs;
    let autostart = parse(&["-k".into()]).unwrap().apply(&mut cfg);
    assert_eq!(cfg.mode, Mode::Clock);
    assert_eq!(cfg.duration_secs, before, "没给时长就不该动它");
    assert!(!autostart);
}

#[test]
fn garbage_arg_is_an_error_not_a_silent_drop() {
    assert!(parse(&["-x".into()]).is_err());
    assert!(parse(&["banana".into()]).is_err());
    assert!(parse(&["25m".into()]).is_ok());
}

#[test]
fn encode_decode_preserves_spaces_in_arguments() {
    for args in [
        vec!["25m".to_string()],
        vec!["1h 30m 10s".to_string()],
        vec!["-p".to_string(), "-r".to_string()],
        vec!["14:30".to_string()],
        vec![],
    ] {
        let line = encode(&args);
        assert!(line.ends_with('\n'));
        assert_eq!(decode(&line), args, "{args:?} 往返不一致");
    }
}

#[test]
fn separator_inside_an_argument_is_neutralised() {
    let back = decode(&encode(&[format!("a{SEP}b")]));
    assert_eq!(back, vec!["a b".to_string()]);
}

#[test]
fn decode_drops_empty_fields() {
    assert_eq!(decode("25m\n"), vec!["25m".to_string()]);
    assert_eq!(decode("25m\r\n"), vec!["25m".to_string()]);
    assert!(decode("\n").is_empty());
    assert!(decode("").is_empty());
}

#[test]
fn socket_path_is_absolute() {
    for p in [
        socket_path(None, Some("/run/user/1000"), "/tmp", 1000),
        socket_path(None, Some("relative"), "/tmp", 1000),
        socket_path(Some("/tmp/x"), None, "/tmp", 0),
    ] {
        assert!(p.starts_with('/'), "{}", p);
        assert!(p.rsplit('/').next().unwrap().starts_with("tinyticker"));
    }
    assert_eq!(
        socket_path(None, Some("relative"), "/tmp", 1000),
        "/tmp/tinyticker-1000.sock"
    );
    assert_eq!(socket_path(Some("/c"), Some("/r"), "/tmp", 1), "/c/tinyticker.sock");
}

#[test]
fn what_is_wrong_with_an_argument_is_said() {
    assert_eq!(parse(&["--and".into()]), Err("--and 后面要跟一条命令".to_string()));
    assert_eq!(parse(&["25m".into(), "-x".into()]), Err("无法识别的参数: -x".to_string()));
}

#[test]
fn a_time_of_day_counts_from_now() {
    let i = parse(&["14:30".into()]).unwrap();
    assert_eq!(i.duration, Some(16_200));
    assert_eq!(parse(&["10:00".into()]).unwrap().duration, Some(86_400));
    let twice = parse(&["--hide".into(), "--show".into(), "5".into(), "6".into()]).unwrap();
    assert_eq!((twice.hidden, twice.duration), (Some(false), Some(6)));
}

#[test]
fn a_line_travels_as_bytes() {
    let args = vec!["-p".to_string(), "1h 30m".to_string()];
    let line = payload(&args).unwrap();
    let mut bytes = Vec::new();
    for b in line.bytes() {
        assert!(unfinished(&bytes));
        bytes.push(b);
    }
    assert!(!unfinished(&bytes));
    let text = read_line(&bytes).unwrap();
    assert_eq!(decode(&text), args);
    assert_eq!(
        received(&text, (10, 0, 0)),
        vec![Command::SetMode(Mode::Pomodoro), Command::Preset(5400)]
    );
    assert!(received("banana", (10, 0, 0)).is_empty());
    assert_eq!(read_line(b"\n"), None);
    assert_eq!(read_line(&[0xe4, 0xb8, 10]), None, "half a character is no text");
    assert_eq!(read_line("中\n".as_bytes()).as_deref(), Some("中"));
    assert_eq!(read_line(&vec![97u8; MAX_LINE]), None);
    assert!(read_line(&vec![97u8; MAX_LINE - 1]).is_some());
    assert!(payload(&["a".repeat(MAX_LINE)]).is_none());
    assert!(payload(&["a".repeat(MAX_LINE - 1)]).is_some());
}

#[test]
fn line_ends_inside_the_arguments_survive() {
    let args: Vec<String> = ["a\nb", "c\r", "\n d"].iter().map(|s| s.to_string()).collect();
    let line = encode(&args);
    assert!(line.ends_with("d\n"));
    assert_eq!(decode(&line), args);
    assert_eq!(decode(&encode(&["x\r\n".to_string()])), vec!["x".to_string()]);
}
