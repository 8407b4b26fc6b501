use tinyticker::timer::{Finished, Mode, Phase, Pomo, Timer};

/// Moments are in microseconds.
fn secs(n: u64) -> u64 {
    n * 1_000_000
}

fn millis(n: u64) -> u64 {
    n * 1_000
}

fn advance(t: &mut Timer, t0: u64, n: u64) {
    t.tick_at(t0 + secs(n));
}

#[test]
fn countdown_decreases_and_finishes_once() {
    let mut t = Timer::new(Mode::Countdown, 3);
    t.start();
    let t0: u64 = 5_000_000;
    t.tick_at(t0);
    t.tick_at(t0 + secs(1));
    assert_eq!(t.secs, 2);
    t.tick_at(t0 + secs(2));
    assert_eq!(t.secs, 1);
    t.tick_at(t0 + secs(3));
    assert_eq!(t.secs, 0);
    assert!(!t.running);
    assert_eq!(t.take_finished(), Some(Finished::Countdown));
    assert_eq!(t.take_finished(), None);
}

#[test]
fn countdown_restart_after_done_resets() {
    let mut t = Timer::new(Mode::Countdown, 60);
    t.start();
    let t0: u64 = 5_000_000;
    t.tick_at(t0);
    t.tick_at(t0 + secs(60));
    assert_eq!(t.secs, 0);
    t.start();
    assert_eq!(t.secs, 60);
    assert!(t.running);
}

#[test]
fn countdown_pause_freezes() {
    let mut t = Timer::new(Mode::Countdown, 10);
    t.start();
    let t0: u64 = 5_000_000;
    t.tick_at(t0);
    t.tick_at(t0 + secs(4));
    t.pause();
    t.tick_at(t0 + secs(9));
    assert_eq!(t.secs, 6);
}

#[test]
fn stopwatch_counts_up() {
    let mut t = Timer::new(Mode::Stopwatch, 0);
    assert_eq!(t.secs, 0);
    t.start();
    let t0: u64 = 5_000_000;
    t.tick_at(t0);
    t.tick_at(t0 + secs(5));
    assert_eq!(t.secs, 5);
    assert!(t.running);
    assert_eq!(t.take_finished(), None);
}

#[test]
fn stopwatch_centiseconds_roll_into_the_second() {
    let mut t = Timer::new(Mode::Stopwatch, 0);
    t.start();
    let t0: u64 = 5_000_000;
    t.tick_at(t0);
    assert_eq!(t.display_centis(), 0);
    t.tick_at(t0 + millis(500));
    assert_eq!(t.display_centis(), 50);
    t.tick_at(t0 + millis(1200));
    assert_eq!((t.secs, t.display_centis()), (1, 120));
    t.tick_at(t0 + secs(60));
    assert_eq!(t.display_centis(), 6000);
    assert_eq!(t.display_secs(), 60, "整秒读法不受百分位影响");
}

#[test]
fn countdown_centiseconds_descend_through_the_second_boundary() {
    let mut t = Timer::new(Mode::Countdown, 3);
    t.start();
    let t0: u64 = 5_000_000;
    t.tick_at(t0);
    assert_eq!(t.display_centis(), 300);
    t.tick_at(t0 + millis(700));
    assert_eq!((t.display_secs(), t.display_centis()), (3, 230));
    t.tick_at(t0 + millis(1000));
    assert_eq!(t.display_centis(), 200, "230 之后该是 200，不该跳号");
    t.tick_at(t0 + millis(2990));
    assert_eq!(t.display_centis(), 1);
    t.tick_at(t0 + millis(3000));
    assert_eq!(t.display_centis(), 0);
    assert_eq!(t.take_finished(), Some(Finished::Countdown));
}

#[test]
fn centiseconds_freeze_across_a_pause() {
    let mut t = Timer::new(Mode::Stopwatch, 0);
    t.start();
    let t0: u64 = 5_000_000;
    t.tick_at(t0);
    t.tick_at(t0 + millis(1300));
    assert_eq!(t.display_centis(), 130);
    t.pause();
    t.tick_at(t0 + secs(30));
    assert_eq!(
        (t.display_secs(), t.display_centis()),
        (1, 130),
        "暂停期间读数不动"
    );
    t.start();
    t.tick_at(t0 + secs(31));
    assert_eq!(
        t.display_centis(),
        230,
        "该从 1.30 接着走，而不是从 2.00 重来"
    );
}

#[test]
fn reset_clears_the_centisecond_remainder() {
    let mut t = Timer::new(Mode::Stopwatch, 0);
    t.start();
    let t0: u64 = 5_000_000;
    t.tick_at(t0);
    t.tick_at(t0 + millis(750));
    assert_eq!(t.display_centis(), 75);
    t.reset();
    assert_eq!(t.display_centis(), 0);
}

#[test]
fn sub_hundredth_heartbeat_jitter_does_not_slow_the_clock() {
    let mut t = Timer::new(Mode::Stopwatch, 0);
    t.start();
    let t0: u64 = 5_000_000;
    t.tick_at(t0);
    for i in 1..=20 {
        t.tick_at(t0 + 19_500 * i);
    }
    assert_eq!(t.display_centis(), 39, "零头被丢掉了 → 读数偏慢");
    for i in 21..=1000 {
        t.tick_at(t0 + 19_500 * i);
    }
    assert_eq!(t.display_centis(), 1950, "长期走时漂移了");
    assert_eq!(t.display_secs(), 19);
}

#[test]
fn pomodoro_cycles_phases_and_counts_rounds() {
    let mut t = Timer::new(Mode::Pomodoro, 0);
    t.set_pomo(&no_long_break(2, 1));
    t.start();
    let t0: u64 = 5_000_000;
    t.tick_at(t0);
    t.tick_at(t0 + secs(1));
    assert_eq!(t.secs, 1);
    t.tick_at(t0 + secs(2));
    assert_eq!(t.phase, Phase::Break);
    assert_eq!(t.secs, 1);
    assert_eq!(t.round, 1);
    assert!(t.running);
    assert_eq!(t.take_finished(), Some(Finished::PomodoroWork));
    assert_eq!(t.take_finished(), None);
    t.tick_at(t0 + secs(3));
    assert_eq!(t.phase, Phase::Work);
    assert_eq!(t.secs, 2);
    assert_eq!(t.round, 1);
    assert_eq!(t.take_finished(), Some(Finished::PomodoroBreak));
}

fn no_long_break(work: u32, short: u32) -> Pomo {
    Pomo {
        work,
        short_break: short,
        long_break: 0,
        rounds: 4,
        cycles: 0,
        seq: Vec::new(),
    }
}

#[test]
fn pomodoro_inserts_long_break_and_stops_after_last_cycle() {
    let mut t = Timer::new(Mode::Pomodoro, 0);
    t.set_pomo(&Pomo {
        work: 2,
        short_break: 1,
        long_break: 3,
        rounds: 2,
        cycles: 1,
        seq: Vec::new(),
    });
    t.start();
    let t0: u64 = 5_000_000;
    t.tick_at(t0);

    advance(&mut t, t0, 2);
    assert_eq!((t.phase, t.secs), (Phase::Break, 1));
    assert_eq!(t.take_finished(), Some(Finished::PomodoroWork));
    advance(&mut t, t0, 3);
    assert_eq!((t.phase, t.secs), (Phase::Work, 2));
    assert_eq!(t.take_finished(), Some(Finished::PomodoroBreak));
    advance(&mut t, t0, 5);
    assert_eq!((t.phase, t.secs), (Phase::LongBreak, 3));
    assert_eq!(t.take_finished(), Some(Finished::PomodoroWork));
    advance(&mut t, t0, 8);
    assert_eq!(t.take_finished(), Some(Finished::PomodoroAllDone));
    assert!(!t.running);
    assert!(t.is_done());
    assert_eq!(t.secs, 0);
}

#[test]
fn unlimited_pomodoro_keeps_looping_into_the_next_set() {
    let mut t = Timer::new(Mode::Pomodoro, 0);
    t.set_pomo(&Pomo {
        work: 2,
        short_break: 1,
        long_break: 3,
        rounds: 2,
        cycles: 0,
        seq: Vec::new(),
    });
    t.start();
    let t0: u64 = 5_000_000;
    t.tick_at(t0);
    t.tick_at(t0 + secs(8));
    assert_eq!(t.phase, Phase::Work);
    assert_eq!(t.round, 2);
    assert!(t.running);
    assert!(!t.is_done());
    assert_eq!(t.take_finished(), Some(Finished::PomodoroLongBreak));
    assert_eq!(t.pomo_status(), ("WORK", 1), "新的一组该从 1 重新数");
}

#[test]
fn cycles_still_bite_with_long_break_disabled() {
    let mut t = Timer::new(Mode::Pomodoro, 0);
    t.set_pomo(&Pomo {
        work: 1,
        short_break: 1,
        long_break: 0,
        rounds: 2,
        cycles: 1,
        seq: Vec::new(),
    });
    t.start();
    let t0: u64 = 5_000_000;
    t.tick_at(t0);
    t.tick_at(t0 + secs(3));
    assert!(t.running && !t.is_done(), "第 2 轮刚结束，短休息还没走完");
    t.tick_at(t0 + secs(4));
    assert_eq!(t.take_finished(), Some(Finished::PomodoroAllDone));
    assert!(t.is_done() && !t.running);
}

#[test]
fn a_custom_sequence_runs_step_by_step_then_stops() {
    let mut t = Timer::new(Mode::Pomodoro, 0);
    t.set_pomo(&Pomo {
        seq: vec![3, 2, 1],
        cycles: 2,
        ..Pomo::default()
    });
    assert_eq!(
        (t.pomo_status(), t.display_secs()),
        (("POMO", 1), 3),
        "第 1 段"
    );
    t.start();
    let run = |t: &mut Timer, secs: u32| {
        for _ in 0..secs {
            t.tick();
        }
    };
    run(&mut t, 3);
    assert_eq!(t.take_finished(), Some(Finished::PomodoroStep));
    assert_eq!((t.pomo_status(), t.display_secs()), (("POMO", 2), 2));
    run(&mut t, 2);
    assert_eq!(t.take_finished(), Some(Finished::PomodoroStep));
    assert_eq!(
        (t.pomo_status(), t.display_secs()),
        (("POMO", 3), 1),
        "第 3 段"
    );
    run(&mut t, 1);
    assert_eq!(t.take_finished(), Some(Finished::PomodoroStep));
    assert_eq!((t.pomo_status(), t.display_secs()), (("POMO", 1), 3));
    run(&mut t, 3 + 2 + 1);
    assert_eq!(
        t.take_finished(),
        Some(Finished::PomodoroAllDone),
        "两遍跑完该收工"
    );
    assert!(t.is_done() && !t.running);
    assert_eq!(t.display_secs(), 0);
}

#[test]
fn an_endless_sequence_keeps_wrapping() {
    let mut t = Timer::new(Mode::Pomodoro, 0);
    t.set_pomo(&Pomo {
        seq: vec![1, 1],
        cycles: 0,
        ..Pomo::default()
    });
    t.start();
    for i in 0..6 {
        t.tick();
        assert_eq!(
            t.take_finished(),
            Some(Finished::PomodoroStep),
            "第 {i} 次翻段"
        );
        assert!(t.running && !t.is_done(), "不限遍数就不许自己停下");
    }
    assert!(t.pomo_status().1 <= 2, "段号不许跑出序列之外");
}

#[test]
fn zero_length_steps_are_clamped_up() {
    let mut t = Timer::new(Mode::Pomodoro, 0);
    t.set_pomo(&Pomo {
        seq: vec![0, 5],
        cycles: 1,
        ..Pomo::default()
    });
    assert_eq!(t.display_secs(), 1, "0 秒段该被抬成 1 秒");
}

#[test]
fn step_jump_follows_the_tray_item() {
    let mut t = Timer::new(Mode::Pomodoro, 0);
    assert_eq!(t.pomo_step(), None, "经典配方没有\"段\"可报");
    assert!(!t.goto_step(0), "不在序列上就不许跳");
    t.set_pomo(&Pomo {
        seq: vec![30, 20, 10],
        cycles: 0,
        ..Pomo::default()
    });
    assert_eq!(t.pomo_step(), Some(0));
    assert!(t.goto_step(2));
    assert_eq!(
        (t.pomo_step(), t.display_secs()),
        (Some(2), 10),
        "读数该换成第 3 段"
    );
    assert!(!t.running, "没在跑的时候跳段不该顺手把它跑起来");
    t.start();
    assert!(t.goto_step(1));
    assert_eq!(
        (t.pomo_step(), t.display_secs(), t.running),
        (Some(1), 20, true),
        "在跑的保持跑"
    );
    assert!(!t.goto_step(9), "越界拒绝且什么都不改");
    assert_eq!((t.pomo_step(), t.display_secs()), (Some(1), 20));
    t.set_pomo(&Pomo {
        seq: vec![1],
        cycles: 1,
        ..Pomo::default()
    });
    t.start();
    t.tick();
    assert_eq!(t.take_finished(), Some(Finished::PomodoroAllDone));
    assert!(t.is_done() && !t.running);
    assert!(t.goto_step(0));
    assert_eq!(t.display_secs(), 1, "跳回去读数重新挂上本段时长");
    t.set_mode(Mode::Countdown);
    assert_eq!(t.pomo_step(), None);
}

#[test]
fn pomo_status_numbers_follow_the_set() {
    let mut t = Timer::new(Mode::Pomodoro, 0);
    t.set_pomo(&Pomo {
        work: 10,
        short_break: 10,
        long_break: 10,
        rounds: 2,
        cycles: 2,
        seq: Vec::new(),
    });
    assert_eq!(t.pomo_status(), ("WORK", 1));
    t.phase = Phase::Break;
    t.round = 1;
    assert_eq!(t.pomo_status(), ("BREAK", 1));
    t.phase = Phase::LongBreak;
    t.round = 2;
    assert_eq!(t.pomo_status(), ("LONG", 1));
    t.phase = Phase::Work;
    assert_eq!(t.pomo_status(), ("WORK", 1), "第 3 轮是第 2 组的第 1 轮");
    t.phase = Phase::LongBreak;
    t.round = 4;
    assert_eq!(t.pomo_status(), ("LONG", 2));
}

#[test]
fn pomodoro_is_not_done_until_cycles_run_out() {
    let mut t = Timer::new(Mode::Pomodoro, 0);
    t.set_pomo(&Pomo {
        work: 1,
        short_break: 1,
        long_break: 0,
        rounds: 2,
        cycles: 1,
        seq: Vec::new(),
    });
    assert!(!t.is_done());
    t.start();
    let t0: u64 = 5_000_000;
    t.tick_at(t0);
    t.tick_at(t0 + secs(1));
    assert!(!t.is_done(), "刚结束一轮专注不该算收工");
    assert!(t.running);
}

#[test]
fn pomodoro_reset_restarts_work_phase() {
    let mut t = Timer::new(Mode::Pomodoro, 0);
    t.set_pomo(&no_long_break(600, 300));
    t.start();
    t.secs = 100;
    t.reset();
    assert_eq!(t.phase, Phase::Work);
    assert_eq!(t.secs, 600);
    assert_eq!(t.round, 0);
    assert!(!t.running);
}

#[test]
fn finished_pomodoro_restarts_from_a_clean_set() {
    let mut t = Timer::new(Mode::Pomodoro, 0);
    t.set_pomo(&Pomo {
        work: 1,
        short_break: 1,
        long_break: 0,
        rounds: 1,
        cycles: 1,
        seq: Vec::new(),
    });
    t.start();
    let t0: u64 = 5_000_000;
    t.tick_at(t0);
    t.tick_at(t0 + secs(2));
    assert!(t.is_done() && !t.running);
    t.start();
    assert!(t.running);
    assert!(!t.is_done());
    assert_eq!(t.phase, Phase::Work);
    assert_eq!(t.secs, 1);
}

#[test]
fn pomo_zero_durations_are_clamped_to_one_second() {
    let mut t = Timer::new(Mode::Pomodoro, 0);
    t.set_pomo(&Pomo {
        work: 0,
        short_break: 0,
        long_break: 0,
        rounds: 0,
        cycles: 0,
        seq: Vec::new(),
    });
    assert_eq!(t.secs, 1, "番茄钟总时长不该被置成 0");
    assert_eq!(t.pomo_status(), ("WORK", 1), "rounds=0 该被当作 1");
}

#[test]
fn clock_mode_never_ticks_or_finishes() {
    let mut t = Timer::new(Mode::Clock, 60);
    t.start();
    let t0: u64 = 5_000_000;
    t.tick_at(t0);
    t.tick_at(t0 + secs(5));
    assert_eq!(t.secs, 0);
    assert_eq!(t.take_finished(), None);
}

#[test]
fn start_countdown_sets_total_and_runs() {
    let mut t = Timer::new(Mode::Countdown, 60);
    t.start_countdown(1500);
    assert_eq!(t.total, 1500);
    assert_eq!(t.secs, 1500);
    assert!(t.running);
}

#[test]
fn set_mode_resets() {
    let mut t = Timer::new(Mode::Countdown, 60);
    t.start();
    let t0: u64 = 5_000_000;
    t.tick_at(t0);
    t.tick_at(t0 + secs(10));
    assert_eq!(t.secs, 50);
    t.set_mode(Mode::Stopwatch);
    assert_eq!(t.secs, 0);
    assert!(!t.running);
    t.set_mode(Mode::Countdown);
    assert_eq!(t.secs, 60);
}

#[test]
fn mode_names_roundtrip() {
    for mode in [
        Mode::Countdown,
        Mode::Stopwatch,
        Mode::Pomodoro,
        Mode::Clock,
    ] {
        assert_eq!(Mode::from_name(mode.name()), Some(mode));
    }
    assert_eq!(Mode::from_name("bogus"), None);
}

#[test]
fn a_pomodoro_with_sets_takes_as_long_as_its_rounds() {
    let mut t = Timer::new(Mode::Pomodoro, 0);
    t.set_pomo(&Pomo { work: 3, short_break: 2, long_break: 4, rounds: 2, cycles: 2, seq: Vec::new() });
    t.start();
    // each set: three, two, three and four seconds
    for _ in 0..12 {
        assert!(t.running);
        t.tick();
    }
    assert_eq!((t.phase, t.round, t.secs, t.running), (Phase::Work, 2, 3, true));
    for _ in 0..12 {
        assert!(t.running);
        t.tick();
    }
    assert!(!t.running && t.is_done());
    assert_eq!((t.round, t.secs), (4, 0));
    assert_eq!(t.take_finished(), Some(Finished::PomodoroAllDone));
    assert_eq!(t.take_finished(), None);
}

#[test]
fn a_pomodoro_lasts_as_long_as_its_sets() {
    let (w, s, l, r, c) = (4, 2, 3, 3, 2);
    for long_break in [l, 0] {
        let mut t = Timer::new(Mode::Pomodoro, 0);
        t.set_pomo(&Pomo { work: w, short_break: s, long_break, rounds: r, cycles: c, seq: vec![] });
        t.start();
        let last = if long_break > 0 { long_break } else { s };
        for _ in 0..c * (r * w + (r - 1) * s + last) {
            assert!(t.running && !t.is_done() && t.secs > 0);
            t.tick();
        }
        assert!(!t.running && t.is_done());
        assert_eq!((t.secs, t.take_finished()), (0, Some(Finished::PomodoroAllDone)));
    }
}

#[test]
fn what_is_configured_already_changes_nothing() {
    let mut t = Timer::new(Mode::Pomodoro, 60);
    t.set_pomo(&Pomo { seq: vec![5, 6], ..Pomo::default() });
    t.goto_step(1);
    let pomo = t.pomo.clone();
    t.reload(Mode::Pomodoro, 60, &pomo);
    assert_eq!((t.step, t.secs, t.running), (1, 6, false));
    t.start();
    t.tick();
    t.reload(Mode::Countdown, 5, &Pomo { seq: vec![9], ..pomo });
    assert_eq!((t.mode, t.total, t.step, t.secs, t.running), (Mode::Pomodoro, 60, 0, 5, true));
}

#[test]
fn a_countdown_knows_how_far_it_has_come() {
    let mut t = Timer::new(Mode::Countdown, 60);
    assert_eq!(t.progress(), 0);
    t.secs = 15;
    assert_eq!(t.progress(), 75);
    t.secs = 0;
    assert_eq!(t.progress(), 100);
    assert_eq!(Timer::new(Mode::Countdown, 0).progress(), 0);
    t.set_mode(Mode::Stopwatch);
    t.secs = 5;
    assert_eq!(t.progress(), 0);
}
