use tinyticker::app::{
    format_clock, input_box, reading, state_of, take_config_dir, tops, Action, App, Look,
};
use tinyticker::config::Config;
use tinyticker::effect::{Effect, Gradient};
use tinyticker::render::Canvas;
use tinyticker::text::Inks;
use tinyticker::timer::{Finished, Mode, Pomo};
use tinyticker::tray::{Command, IconMode};

fn v(xs: &[&str]) -> Vec<String> {
    xs.iter().map(|s| s.to_string()).collect()
}

#[test]
fn config_dir_is_taken_out_of_the_args() {
    let (dir, rest) = take_config_dir(&v(&["--config-dir", "/tmp/x", "25m"])).unwrap();
    assert_eq!(dir.as_deref(), Some("/tmp/x"));
    assert_eq!(rest, v(&["25m"]), "路径本身不算时长参数");
    let (dir, rest) = take_config_dir(&v(&["--config-dir=/tmp/y", "-r"])).unwrap();
    assert_eq!(dir.as_deref(), Some("/tmp/y"));
    assert_eq!(rest, v(&["-r"]));
    assert_eq!(
        take_config_dir(&v(&["-C", "/tmp/z"])).unwrap().0.as_deref(),
        Some("/tmp/z")
    );
    let (dir, rest) = take_config_dir(&v(&["25m", "-s"])).unwrap();
    assert_eq!(dir, None, "没给就不该造出一个目录");
    assert_eq!(rest, v(&["25m", "-s"]));
}

#[test]
fn a_directory_must_follow() {
    assert_eq!(
        take_config_dir(&v(&["25m", "-C"])),
        Err("--config-dir 后面要跟一个路径".to_string())
    );
    assert_eq!(
        take_config_dir(&v(&["-C", "/a", "--config-dir=/b"])),
        Ok((Some("/b".to_string()), vec![]))
    );
}

#[test]
fn the_clock_shows_as_much_as_is_asked_for() {
    assert_eq!(format_clock((17, 31, 5), None, false, true), "17:31:05");
    assert_eq!(format_clock((17, 31, 5), Some(7), false, true), "17:31:05.07");
    assert_eq!(format_clock((17, 31, 5), Some(7), true, false), "05:31 PM");
    assert_eq!(format_clock((0, 5, 0), None, true, true), "12:05:00 AM");
}

fn app(mode: Mode, secs: u32) -> App {
    App::new(Config { mode, duration_secs: secs, ..Config::default() }, false)
}

#[test]
fn the_two_lines_say_what_the_timer_does() {
    let now = (9, 5, 3);
    let mut a = app(Mode::Countdown, 90);
    let both = |a: &App| (reading(&a.timer, &a.config, now, 0), state_of(&a.timer));
    assert_eq!(both(&a), ("1:30".to_string(), "PAUSED".to_string()));
    a.timer.start();
    assert_eq!(both(&a).1, "RUNNING");
    a.timer.secs = 0;
    assert_eq!(both(&a), ("0s".to_string(), "DONE".to_string()));
    a.config.timeout_text = Some("时间到".into());
    assert_eq!(both(&a).0, "时间到");
    a.config.timeout_text = Some("0".into());
    assert_eq!(both(&a).0, "");
    let mut w = app(Mode::Stopwatch, 0);
    assert_eq!(both(&w), ("0s".to_string(), "STOPWATCH".to_string()));
    w.config.centiseconds = true;
    assert_eq!(both(&w).0, "0.00s");
    assert_eq!(both(&app(Mode::Clock, 0)), ("09:05:03".to_string(), "CLOCK".to_string()));
    let mut p = app(Mode::Pomodoro, 0);
    assert_eq!(both(&p), ("25:00".to_string(), "WORK 1".to_string()));
    p.timer.cycles_done = true;
    assert_eq!(both(&p).1, "DONE");
}

#[test]
fn lines_are_in_the_middle() {
    assert_eq!(tops(100, 1), (36, 56));
    assert_eq!(tops(20, 1), (0, 20));
    assert_eq!(input_box(200, 100, 1, 64, 56), (68, 36, 64, 28));
    assert_eq!(input_box(50, 40, 2, 128, 56), (0, 0, 50, 40));
}

#[test]
fn a_frame_is_painted_once_and_depends_on_its_look() {
    let mut a = app(Mode::Countdown, 90);
    let look = |a: &App| a.look((0, 0, 0), 0, 7, (200, 100), 1, None);
    assert!(a.renew(look(&a)));
    assert!(!a.renew(look(&a)));
    assert_eq!(a.handle(Command::SetAlpha(255)), Action::Save);
    assert!(a.renew(look(&a)));
    let none = Inks::none();
    let paint = |l: &Look| {
        assert!(l.can_paint(&none, &none));
        let mut buf = vec![1u32; 200 * 100];
        l.paint(&mut Canvas::new(&mut buf, 200, 100), &none, &none);
        buf
    };
    let buf = paint(&look(&a));
    assert_eq!(buf[0], 0xFF0F0F14, "the background");
    assert!(buf.contains(&0xFFFFC850), "digits that stand still");
    assert!(buf.contains(&0xFFA0A0AA), "the status");
    assert_eq!(buf, paint(&look(&a)));
    let wide = Look { scale: 80_000_000, ..look(&a) };
    assert!(!wide.can_paint(&none, &none));
    let moving = App {
        config: Config { text_effect: Effect::Aqua, ..Config::default() },
        ..app(Mode::Clock, 0)
    };
    assert_eq!((look(&a).phase, look(&moving).phase), (0, 7));
    assert_eq!((a.heartbeat(), moving.heartbeat()), (1000, 50));
}

#[test]
fn commands_reach_timer_and_configuration() {
    let mut a = app(Mode::Countdown, 60);
    assert_eq!(a.handle(Command::Toggle), Action::Done);
    assert!(a.timer.running);
    a.handle(Command::Toggle);
    assert!(!a.timer.running);
    a.handle(Command::Preset(600));
    assert_eq!((a.timer.total, a.timer.running), (600, true));
    a.handle(Command::SetMode(Mode::Clock));
    assert_eq!(a.timer.mode, Mode::Clock);
    a.handle(Command::SetPalette(1));
    assert_eq!(a.config.color_running, Gradient::solid(0x9AD4FF));
    a.handle(Command::SetPalette(99));
    assert_eq!(a.config.color_running, Gradient::solid(0x9AD4FF));
    a.handle(Command::SetHidden(true));
    assert!(a.hidden);
    assert_eq!(a.heartbeat(), 1000);
    assert_eq!(a.handle(Command::ZoomBy(-2)), Action::Zoom(-2));
    assert_eq!(a.handle(Command::InputTime), Action::Input);
    assert_eq!(a.handle(Command::Quit), Action::Quit);
    a.handle(Command::SetEdit(true));
    assert!(!a.clicks_pass());
    assert_eq!(a.look((0, 0, 0), 0, 0, (1, 1), 1, Some("x")).status, "EDIT");
    assert_eq!(a.right_button(), Action::Done);
    assert_eq!(a.right_button(), Action::Quit);
    a.config.click_through = true;
    assert!(a.clicks_pass());
    a.persist(Some((3, 4)));
    assert_eq!((a.config.duration_secs, a.config.mode, a.config.window_pos), (600, Mode::Clock, Some((3, 4))));
    a.persist(None);
    assert_eq!(a.config.window_pos, Some((3, 4)));
}

#[test]
fn the_end_of_a_timer_is_told_and_acted_on() {
    let mut a = app(Mode::Countdown, 60);
    assert!(a.finish().is_none());
    a.config.on_finish = Some("lock".into());
    a.timer.finished = Some(Finished::Countdown);
    let e = a.finish().unwrap();
    assert_eq!(e.notice, Some(("⏰ 计时结束".to_string(), "再来一次")));
    assert_eq!(e.command.as_deref(), Some("lock"));
    a.handle(Command::ArmFinish("once".into()));
    a.timer.finished = Some(Finished::PomodoroBreak);
    let e = a.finish().unwrap();
    assert_eq!(e.notice, Some(("☕ 休息结束，继续专注".to_string(), "开始")));
    assert_eq!(e.command, None);
    a.edit = true;
    a.timer.finished = Some(Finished::Countdown);
    let e = a.finish().unwrap();
    assert!(e.notice.is_none() && e.command.is_none());
    a.edit = false;
    a.config.notify = false;
    a.timer.finished = Some(Finished::PomodoroWork);
    let e = a.finish().unwrap();
    assert!(e.notice.is_none());
    assert_eq!(e.command.as_deref(), Some("once"));
    a.config.notify = true;
    a.config.notify_text = Some("起来".into());
    a.timer.finished = Some(Finished::PomodoroAllDone);
    let e = a.finish().unwrap();
    assert_eq!(e.notice, Some(("起来".to_string(), "再来一次")));
    assert_eq!(e.command.as_deref(), Some("lock"), "what was given for one time is gone");
}

#[test]
fn a_window_begins_with_what_is_configured() {
    let config = Config {
        mode: Mode::Pomodoro,
        pomo: Pomo { seq: vec![0, 5], ..Pomo::default() },
        ..Config::default()
    };
    let a = App::new(config, true);
    assert!(a.timer.running);
    assert_eq!((a.timer.secs, a.timer.pomo.seq.clone()), (1, vec![1, 5]));
}

#[test]
fn what_is_set_for_good_is_saved() {
    let mut a = app(Mode::Countdown, 60);
    for cmd in [
        Command::SetAlpha(9),
        Command::SetPalette(2),
        Command::SetIcon(IconMode::Cpu),
        Command::SetCentiseconds(true),
    ] {
        assert_eq!(a.handle(cmd), Action::Save);
    }
    for cmd in [Command::Start, Command::Reset, Command::SetHidden(true), Command::Preset(5)] {
        assert_eq!(a.handle(cmd), Action::Done);
    }
    assert_eq!((a.config.bg_alpha, a.config.tray_icon, a.config.centiseconds), (9, IconMode::Cpu, true));
}

#[test]
fn a_sound_is_played_at_the_end_unless_the_window_is_arranged() {
    let mut a = app(Mode::Countdown, 60);
    a.timer.finished = Some(Finished::Countdown);
    assert_eq!(a.finish().unwrap().sound, None);
    a.config.alarm_sound = Some("beep".into());
    a.config.alarm_volume = 40;
    a.config.notify = false;
    a.timer.finished = Some(Finished::PomodoroBreak);
    assert_eq!(a.finish().unwrap().sound, Some(("beep".to_string(), 40)));
    a.edit = true;
    a.timer.finished = Some(Finished::Countdown);
    assert_eq!(a.finish().unwrap().sound, None);
}

#[test]
fn another_configuration_does_not_cut_a_timer_off() {
    let file = |mode, duration_secs, pomo| Config { mode, duration_secs, pomo, ..Config::default() };
    let mut a = app(Mode::Countdown, 60);
    a.timer.start();
    a.timer.tick();
    a.reload(file(Mode::Clock, 300, Pomo::default()));
    assert_eq!((a.timer.mode, a.timer.total, a.timer.secs, a.timer.running), (Mode::Countdown, 60, 59, true));
    assert_eq!((a.config.mode, a.config.duration_secs), (Mode::Clock, 300));
    a.timer.pause();
    a.reload(file(Mode::Countdown, 60, Pomo::default()));
    assert_eq!((a.timer.total, a.timer.secs), (60, 59), "the same total leaves the rest as it is");
    a.reload(file(Mode::Countdown, 300, Pomo::default()));
    assert_eq!((a.timer.total, a.timer.secs, a.timer.running), (300, 300, false));
    a.reload(file(Mode::Clock, 300, Pomo::default()));
    assert_eq!((a.timer.mode, a.timer.secs), (Mode::Clock, 0));
}

#[test]
fn another_configuration_brings_its_rhythm() {
    let rhythm = |work, seq| Pomo { work, seq, ..Pomo::default() };
    let mut a = app(Mode::Pomodoro, 60);
    let file = |pomo| Config { mode: Mode::Pomodoro, duration_secs: 60, pomo, ..Config::default() };
    assert_eq!(a.timer.secs, 1500);
    a.reload(file(rhythm(600, vec![])));
    assert_eq!((a.timer.secs, a.timer.pomo.work), (600, 600));
    a.timer.start();
    a.timer.tick();
    a.reload(file(rhythm(2, vec![])));
    assert_eq!((a.timer.secs, a.timer.pomo.work, a.timer.running), (599, 2, true));
    a.reload(file(rhythm(2, vec![7, 0])));
    assert_eq!((a.timer.secs, a.timer.pomo.seq.clone(), a.timer.running), (599, vec![7, 1], true));
    a.timer.pause();
    a.reload(file(rhythm(2, vec![7, 0])));
    assert_eq!(a.timer.secs, 599, "the same rhythm leaves the rest as it is");
    a.reload(file(rhythm(2, vec![8])));
    assert_eq!((a.timer.secs, a.timer.step), (8, 0));
}
