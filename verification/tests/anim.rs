use tinyticker::anim::{
    assemble, decode, is_picture_name, load, pick, Animation, Frame, Player, Throttle, FOLDER_DELAY,
    MAX_FILE_BYTES, MAX_FOLDER_FILES,
};

#[test]
fn decode_dispatches_by_signature() {
    const TINY: &[u8] = &[
        0x47, 0x49, 0x46, 0x38, 0x39, 0x61, 0x04, 0x00, 0x02, 0x00, 0x83, 0x00, 0x00,
    ];
    assert!(decode(TINY).is_none() || decode(TINY).unwrap().frames.len() == 1);
    let mut fake = b"\x89PNG\r\n\x1a\n".to_vec();
    fake.extend_from_slice(&[0u8; 30]);
    assert!(decode(&fake).is_none());
    assert!(decode(b"nonsense").is_none());
}

#[test]
fn zero_delay_frames_still_advance() {
    let a = Animation {
        width: 1,
        height: 1,
        frames: vec![
            Frame {
                rgba: vec![0; 4],
                delay: 0,
            },
            Frame {
                rgba: vec![0; 4],
                delay: 0,
            },
        ],
    };
    assert_eq!(a.frame_at(1), 1);
}

fn still(w: u16, h: u16, v: u8) -> Animation {
    Animation {
        width: w,
        height: h,
        frames: vec![Frame {
            rgba: vec![v; usize::from(w) * usize::from(h) * 4],
            delay: 1000,
        }],
    }
}

fn names(list: &[&str]) -> Vec<String> {
    list.iter().map(|s| s.to_string()).collect()
}

#[test]
fn folder_is_shown_by_name_and_only_its_pictures() {
    let n = names(&["b.png", "a.PNG", "wide.gif", "notes.txt", "png", "Z.png"]);
    assert_eq!(pick(&n), vec![5, 1, 0, 2]);
    assert!(is_picture_name("x.GIF") && !is_picture_name("x.gifs"));
    let many: Vec<String> = (0..100).map(|i| format!("{:03}.png", 99 - i)).collect();
    let picked = pick(&many);
    assert_eq!(picked.len(), MAX_FOLDER_FILES);
    assert_eq!((picked[0], picked[63]), (99, 36));
    assert!(pick(&[]).is_empty());
}

#[test]
fn folder_takes_first_pictures_of_one_size() {
    let list = vec![
        None,
        Some(still(2, 1, 30)),
        Some(still(3, 1, 9)),
        Some(still(2, 1, 200)),
    ];
    let a = assemble(&list).unwrap();
    assert_eq!((a.width, a.height, a.frames.len()), (2, 1, 2));
    assert_eq!((a.frames[0].rgba[0], a.frames[1].rgba[0]), (30, 200));
    assert_eq!(a.frames[1].delay, FOLDER_DELAY);
    assert!(assemble(&vec![None, None]).is_none());
    let empty = Animation {
        width: 2,
        height: 1,
        frames: vec![],
    };
    assert!(assemble(&vec![Some(still(2, 1, 30)), Some(empty)]).is_none());
}

#[test]
fn files_that_are_too_large_are_not_decoded() {
    assert!(load(&vec![0u8; MAX_FILE_BYTES as usize + 1]).is_none());
    assert!(load(b"GIF89a").is_none());
}

#[test]
fn player_starts_over_with_another_file() {
    let mut p = Player::new(Some("~/x.gif"), Some("/home/u"));
    assert_eq!(p.path.as_deref(), Some("/home/u/x.gif"));
    assert_eq!(p.refresh(None), None, "no file, nothing to show");
    assert!(p.current().is_none());
    assert_eq!(p.refresh(Some((10, 1))), Some(true));
    let mut a = still(2, 1, 30);
    a.frames[0].delay = 100;
    a.frames.push(Frame {
        rgba: vec![200; 8],
        delay: 100,
    });
    p.fill(Some(a));
    assert_eq!(p.current().unwrap().0.rgba[0], 30);
    p.advance(0, 1000);
    assert_eq!(p.clock, 0);
    p.advance(100_000_000, 1000);
    assert_eq!(p.current().unwrap().0.rgba[0], 200);
    p.advance(100_000_000, 1000);
    assert_eq!(p.current().unwrap().0.rgba[0], 30, "after the last the first again");
    assert_eq!(p.refresh(Some((10, 1))), Some(false));
    assert_eq!(p.clock, 200_000_000);
    assert_eq!(p.refresh(None), None);
    assert!(p.current().is_none(), "a file that is gone is not shown");
    assert_eq!(p.refresh(Some((10, 1))), Some(false));
    assert_eq!(p.current().unwrap().0.rgba[0], 30);
    assert_eq!(p.refresh(Some((11, 1))), Some(true));
    assert_eq!(p.clock, 0);
    assert!(p.current().is_none());
    p.advance(u64::MAX, 1000);
    p.advance(u64::MAX, 1000);
    assert_eq!(p.clock, u64::MAX);
    assert!(Player::new(Some("  "), None).path.is_none());
}

#[test]
fn player_clock_advances_by_the_speed_only() {
    let mut p = Player::new(None, None);
    for _ in 0..4 {
        p.advance(1_000_000, 0);
    }
    assert_eq!(p.clock, 0, "0 速时虚拟时钟不许前进");
    p.advance(1_000_000, -1000);
    assert_eq!(p.clock, 0, "负倍率该被夹到 0");
    p.advance(1_000_000, 9000);
    assert!(p.clock >= 0, "倍率再大也不许倒退: {:?}", p.clock);
    assert_eq!(p.clock, 4_000_000, "at most four times as fast");
    p.advance(1_000_000, 250);
    assert_eq!(p.clock, 4_250_000);
}

#[test]
fn a_load_slows_the_animation_down() {
    let cpu = |load| Throttle::Cpu.speed(load, 0, 0, 200);
    assert_eq!([0, 50, 51, 75, 99, 100, 255].map(cpu), [1000, 1000, 985, 625, 265, 250, 250]);
    assert_eq!(Throttle::Memory.speed(0, 60, 0, 200), 850);
    assert_eq!(Throttle::Timer.speed(0, 0, 100, 200), 250);
    assert_eq!(Throttle::Fixed.speed(100, 100, 100, 200), 2000);
    assert_eq!(Throttle::Fixed.speed(0, 0, 0, 10), 100);
    assert_eq!(Throttle::default().speed(100, 100, 100, 10), 1000);
    for t in [Throttle::Off, Throttle::Cpu, Throttle::Memory, Throttle::Timer, Throttle::Fixed] {
        assert_eq!(Throttle::from_name(t.name()), Some(t));
    }
    assert_eq!(Throttle::from_name("disk"), None);
}

/// A picture of two gray pixels side by side.
fn png_gray_2x1(v0: u8, v1: u8) -> Vec<u8> {
    let raw = [0u8, v0, v1];
    let mut z = vec![0x78u8, 0x01, 0x01];
    z.extend_from_slice(&(raw.len() as u16).to_le_bytes());
    z.extend_from_slice(&(!(raw.len() as u16)).to_le_bytes());
    z.extend_from_slice(&raw);
    z.extend_from_slice(&[0; 4]);
    let mut b: Vec<u8> = b"\x89PNG\r\n\x1a\n".to_vec();
    for (typ, d) in [
        (b"IHDR", vec![0u8, 0, 0, 2, 0, 0, 0, 1, 8, 0, 0, 0, 0]),
        (b"IDAT", z),
        (b"IEND", Vec::new()),
    ] {
        b.extend_from_slice(&(d.len() as u32).to_be_bytes());
        b.extend_from_slice(typ);
        b.extend_from_slice(&d);
        b.extend_from_slice(&[0; 4]);
    }
    b
}

#[test]
fn folder_source_orders_by_name() {
    let files = [
        ("b.png", png_gray_2x1(200, 201)),
        ("a.png", png_gray_2x1(30, 31)),
        ("wide.png", png_gray_2x1(9, 9)),
        ("notes.txt", b"not an image".to_vec()),
    ];
    let all: Vec<String> = files.iter().map(|f| f.0.to_string()).collect();
    let mut p = Player::new(Some("/tmp/frames"), None);
    assert_eq!(p.refresh(Some((files.len() as u64, 1))), Some(true));
    p.fill(assemble(&pick(&all).into_iter().map(|i| load(&files[i].1)).collect()));
    let (f, w, h) = p.current().expect("目录该解出一段帧序列");
    assert_eq!((w, h), (2, 1));
    assert_eq!(f.rgba[0], 30, "首帧该是 a.png（文件名升序）");
    p.clock = FOLDER_DELAY * 1_000_000;
    let (f2, _, _) = p.current().unwrap();
    assert_eq!(f2.rgba[0], 200, "第二帧该是 b.png");
}
