use tinyticker::anim::Animation;
use tinyticker::gif::{decode, table_bytes};

/// Packs codes of nine bits, the lowest first, with a clear code so often that they never grow.
fn lzw(pixels: &[u8]) -> Vec<u8> {
    let mut codes: Vec<u16> = Vec::new();
    for part in pixels.chunks(200) {
        codes.push(256);
        codes.extend(part.iter().map(|p| u16::from(*p)));
    }
    codes.push(257);
    let (mut bytes, mut acc, mut n): (Vec<u8>, u32, u32) = (Vec::new(), 0, 0);
    for c in codes {
        acc |= u32::from(c) << n;
        n += 9;
        while n >= 8 {
            bytes.push(acc as u8);
            acc >>= 8;
            n -= 8;
        }
    }
    if n > 0 {
        bytes.push(acc as u8);
    }
    bytes
}

/// Rows of a picture in the order in which an interlaced file stores them.
fn interlaced_rows(h: usize) -> Vec<usize> {
    let mut rows: Vec<usize> = (0..h).step_by(8).collect();
    rows.extend((4..h).step_by(8));
    rows.extend((2..h).step_by(4));
    rows.extend((1..h).step_by(2));
    rows
}

/// A GIF of whole frames, each with a color in its upper half and one in its lower half; `clear` is
/// the color that is transparent.
fn gif_of(
    w: u16,
    h: u16,
    frames: &[([u8; 3], [u8; 3])],
    delay: u16,
    interlace: bool,
    clear: Option<u8>,
) -> Vec<u8> {
    let mut b: Vec<u8> = b"GIF89a".to_vec();
    b.extend_from_slice(&w.to_le_bytes());
    b.extend_from_slice(&h.to_le_bytes());
    b.extend_from_slice(&[0x87, 0, 0]);
    let mut table = vec![0u8; 768];
    for (i, (up, down)) in frames.iter().enumerate() {
        table[6 * i..6 * i + 3].copy_from_slice(up);
        table[6 * i + 3..6 * i + 6].copy_from_slice(down);
    }
    b.extend_from_slice(&table);
    let (wide, high) = (usize::from(w), usize::from(h));
    for i in 0..frames.len() {
        b.extend_from_slice(&[0x21, 0xf9, 0x04, 0x04 | u8::from(clear.is_some())]);
        b.extend_from_slice(&delay.to_le_bytes());
        b.extend_from_slice(&[clear.unwrap_or(0), 0, 0x2c, 0, 0, 0, 0]);
        b.extend_from_slice(&w.to_le_bytes());
        b.extend_from_slice(&h.to_le_bytes());
        b.extend_from_slice(&[if interlace { 0x40 } else { 0 }, 8]);
        let order: Vec<usize> = if interlace {
            interlaced_rows(high)
        } else {
            (0..high).collect()
        };
        let mut pixels = Vec::new();
        for row in order {
            let color = (2 * i) as u8 + u8::from(row >= high / 2);
            pixels.extend(vec![color; wide]);
        }
        for part in lzw(&pixels).chunks(255) {
            b.push(part.len() as u8);
            b.extend_from_slice(part);
        }
        b.push(0);
    }
    b.push(0x3b);
    b
}

const DARK: [u8; 3] = [0, 17, 34];
const RED: [u8; 3] = [238, 51, 17];

fn m2() -> Vec<u8> {
    gif_of(32, 32, &[(DARK, DARK), (RED, RED)], 7, false, None)
}

fn inter() -> Vec<u8> {
    gif_of(32, 32, &[(DARK, DARK), (RED, RED)], 7, true, None)
}

fn trans() -> Vec<u8> {
    gif_of(16, 16, &[(DARK, RED)], 7, false, Some(1))
}

fn big() -> Vec<u8> {
    gif_of(
        48,
        40,
        &[([18, 52, 86], [18, 52, 86]), ([101, 67, 33], [101, 67, 33])],
        10,
        false,
        None,
    )
}

const TINY: &[u8] = &[
    0x47, 0x49, 0x46, 0x38, 0x39, 0x61, 0x04, 0x00, 0x02, 0x00, 0x83, 0x00, 0x00, 0x00, 0x00, 0x00,
    0x11, 0x1f, 0x35, 0x22, 0x3e, 0x6a, 0x33, 0x5d, 0x9f, 0x44, 0x7c, 0xd4, 0x55, 0x9b, 0x09, 0x66,
    0xba, 0x3e, 0x77, 0xd9, 0x73, 0x88, 0xf8, 0xa8, 0x99, 0x17, 0xdd, 0xaa, 0x36, 0x12, 0xbb, 0x55,
    0x47, 0xcc, 0x74, 0x7c, 0xdd, 0x93, 0xb1, 0xee, 0xb2, 0xe6, 0xff, 0xd1, 0x1b, 0x21, 0xf9, 0x04,
    0x11, 0x08, 0x00, 0x05, 0x00, 0x2c, 0x00, 0x00, 0x00, 0x00, 0x04, 0x00, 0x02, 0x00, 0x00, 0x04,
    0x07, 0x10, 0x14, 0x10, 0x04, 0x28, 0x23, 0x02, 0x00, 0x3b,
];
const TINY_LEAVE: &[u8] = &[
    0x47, 0x49, 0x46, 0x38, 0x39, 0x61, 0x04, 0x00, 0x02, 0x00, 0x83, 0x00, 0x00, 0x00, 0x00, 0x00,
    0x11, 0x1f, 0x35, 0x22, 0x3e, 0x6a, 0x33, 0x5d, 0x9f, 0x44, 0x7c, 0xd4, 0x55, 0x9b, 0x09, 0x66,
    0xba, 0x3e, 0x77, 0xd9, 0x73, 0x88, 0xf8, 0xa8, 0x99, 0x17, 0xdd, 0xaa, 0x36, 0x12, 0xbb, 0x55,
    0x47, 0xcc, 0x74, 0x7c, 0xdd, 0x93, 0xb1, 0xee, 0xb2, 0xe6, 0xff, 0xd1, 0x1b, 0x21, 0xf9, 0x04,
    0x01, 0x05, 0x00, 0x00, 0x00, 0x2c, 0x00, 0x00, 0x00, 0x00, 0x04, 0x00, 0x02, 0x00, 0x00, 0x04,
    0x07, 0x30, 0x84, 0x10, 0x42, 0x08, 0x21, 0x02, 0x00, 0x21, 0xf9, 0x04, 0x01, 0x05, 0x00, 0x00,
    0x00, 0x2c, 0x00, 0x00, 0x00, 0x00, 0x02, 0x00, 0x02, 0x00, 0x00, 0x04, 0x04, 0xf0, 0x9c, 0x73,
    0x22, 0x00, 0x3b,
];
const TINY_ERASE: &[u8] = &[
    0x47, 0x49, 0x46, 0x38, 0x39, 0x61, 0x04, 0x00, 0x02, 0x00, 0x83, 0x00, 0x00, 0x00, 0x00, 0x00,
    0x11, 0x1f, 0x35, 0x22, 0x3e, 0x6a, 0x33, 0x5d, 0x9f, 0x44, 0x7c, 0xd4, 0x55, 0x9b, 0x09, 0x66,
    0xba, 0x3e, 0x77, 0xd9, 0x73, 0x88, 0xf8, 0xa8, 0x99, 0x17, 0xdd, 0xaa, 0x36, 0x12, 0xbb, 0x55,
    0x47, 0xcc, 0x74, 0x7c, 0xdd, 0x93, 0xb1, 0xee, 0xb2, 0xe6, 0xff, 0xd1, 0x1b, 0x21, 0xf9, 0x04,
    0x01, 0x05, 0x00, 0x00, 0x00, 0x2c, 0x00, 0x00, 0x00, 0x00, 0x04, 0x00, 0x02, 0x00, 0x00, 0x04,
    0x07, 0x30, 0x84, 0x10, 0x42, 0x08, 0x21, 0x02, 0x00, 0x21, 0xf9, 0x04, 0x02, 0x05, 0x00, 0x00,
    0x00, 0x2c, 0x00, 0x00, 0x00, 0x00, 0x02, 0x00, 0x02, 0x00, 0x00, 0x04, 0x04, 0xf0, 0x9c, 0x73,
    0x22, 0x00, 0x21, 0xf9, 0x04, 0x01, 0x05, 0x00, 0x00, 0x00, 0x2c, 0x02, 0x00, 0x00, 0x00, 0x02,
    0x00, 0x02, 0x00, 0x00, 0x04, 0x04, 0x70, 0x8c, 0x31, 0x22, 0x00, 0x3b,
];
fn px(a: &Animation, i: usize, x: u16, y: u16) -> [u8; 4] {
    let o = (usize::from(y) * usize::from(a.width) + usize::from(x)) * 4;
    [a.frames[i].rgba[o], a.frames[i].rgba[o + 1], a.frames[i].rgba[o + 2], a.frames[i].rgba[o + 3]]
}

#[test]
fn decodes_two_solid_frames_with_delays() {
    let a = decode(&m2()).expect("m2.gif 该能解");
    assert_eq!((a.width, a.height), (32, 32));
    assert_eq!(a.frames.len(), 2);
    assert_eq!(a.frames[0].delay, 70, "7cs = 70ms");
    assert_eq!(px(&a, 0, 0, 0), [0, 17, 34, 255]);
    assert_eq!(px(&a, 0, 31, 31), [0, 17, 34, 255]);
    assert_eq!(px(&a, 1, 0, 0), [238, 51, 17, 255]);
    assert_eq!(px(&a, 1, 31, 31), [238, 51, 17, 255]);
}

#[test]
fn interlaced_matches_sequential() {
    let plain = decode(&m2()).unwrap();
    let inter = decode(&inter()).expect("交错 GIF 该能解");
    assert_eq!(inter.frames.len(), 2);
    for i in 0..2 {
        assert_eq!(inter.frames[i].rgba, plain.frames[i].rgba, "第 {i} 帧去交错结果不一致");
    }
}

#[test]
fn transparent_index_is_skipped_not_painted() {
    let a = decode(TINY).expect("手搓的最小 GIF 该能解");
    assert_eq!((a.width, a.height), (4, 2));
    assert_eq!(a.frames.len(), 1);
    assert_eq!(a.frames[0].delay, 80, "8cs = 80ms");
    assert_eq!(px(&a, 0, 0, 0), [0, 0, 0, 255]);
    assert_eq!(px(&a, 0, 3, 0), [17, 31, 53, 255]);
    assert_eq!(px(&a, 0, 0, 1), [34, 62, 106, 255]);
    assert_eq!(px(&a, 0, 3, 1), [51, 93, 159, 255]);
    assert_eq!(px(&a, 0, 1, 0), [0, 0, 0, 0], "透明像素不该被画成实心");
    assert_eq!(px(&a, 0, 2, 1), [0, 0, 0, 0]);
}

#[test]
fn transparency_flag_gates_the_index() {
    let mut off = TINY.to_vec();
    let k = off.windows(2).position(|w| w == [0x21, 0xf9]).unwrap();
    off[k + 3] &= !0x10;
    let a = decode(&off).expect("清掉标志位也该能解");
    assert_eq!(px(&a, 0, 1, 0), [85, 155, 9, 255], "标志位清了还跳过，就是把无关索引当透明用了");
}

#[test]
fn disposal_leave_keeps_the_previous_frame() {
    let a = decode(TINY_LEAVE).unwrap();
    assert_eq!(a.frames.len(), 2);
    assert_eq!(px(&a, 0, 0, 0), [17, 31, 53, 255], "第一帧铺满索引 1");
    assert_eq!(px(&a, 1, 0, 0), [119, 217, 115, 255], "第二帧的子矩形");
    assert_eq!(px(&a, 1, 3, 0), [17, 31, 53, 255], "右半该保留第一帧");
}

#[test]
fn disposal_erase_restores_the_background() {
    let a = decode(TINY_ERASE).unwrap();
    assert_eq!(a.frames.len(), 3);
    assert_eq!(px(&a, 1, 0, 0), [119, 217, 115, 255], "第二帧自己该看得见");
    assert_eq!(px(&a, 2, 0, 0), [0, 0, 0, 0], "第三帧时左半该已被擦掉");
    assert_eq!(px(&a, 2, 3, 0), [51, 93, 159, 255], "第三帧的右半");
}

#[test]
fn honors_non_square_canvas() {
    let a = decode(&big()).unwrap();
    assert_eq!((a.width, a.height), (48, 40));
    assert_eq!(px(&a, 0, 47, 39), [18, 52, 86, 255]);
    assert_eq!(px(&a, 1, 47, 39), [101, 67, 33, 255]);
}

#[test]
fn frame_schedule_loops() {
    let a = decode(&m2()).unwrap();
    assert_eq!(a.frame_at(0), 0);
    assert_eq!(a.frame_at(69), 0);
    assert_eq!(a.frame_at(70), 1);
    assert_eq!(a.frame_at(139), 1);
    assert_eq!(a.frame_at(140), 0);
    assert_eq!(a.frame_at(3_600_000), 0);
}

#[test]
fn truncated_input_never_panics() {
    for src in [
        m2(),
        inter(),
        trans(),
        big(),
        TINY.to_vec(),
        TINY_LEAVE.to_vec(),
        TINY_ERASE.to_vec(),
    ] {
        for n in 0..src.len() {
            if let Some(a) = decode(&src[..n]) {
                assert_eq!(a.frames[0].rgba.len(), usize::from(a.width) * usize::from(a.height) * 4);
            }
        }
    }
}

#[test]
fn rejects_garbage_and_oversized_canvases() {
    assert!(decode(b"not a gif at all").is_none());
    assert!(decode(&[]).is_none());
    assert!(decode(b"GIF89a").is_none());
    let mut hdr = *b"GIF89a\xFF\xFF\xFF\xFF\x00\x00\x00";
    assert!(decode(&hdr).is_none());
    hdr[11] = 0;
    assert!(decode(&hdr).is_none());
}

#[test]
fn color_table_is_2_pow_n_plus_one_entries() {
    assert_eq!(table_bytes(0), 6);
    assert_eq!(table_bytes(7), 768);
}

#[test]
fn rows_of_an_interlaced_picture_are_put_in_order() {
    let halves = [(DARK, RED), (RED, DARK)];
    let plain = decode(&gif_of(24, 20, &halves, 5, false, None)).unwrap();
    let mixed = decode(&gif_of(24, 20, &halves, 5, true, None)).unwrap();
    for i in 0..2 {
        assert_eq!(mixed.frames[i].rgba, plain.frames[i].rgba);
    }
    assert_eq!(px(&plain, 0, 0, 9), [0, 17, 34, 255]);
    assert_eq!(px(&plain, 0, 0, 10), [238, 51, 17, 255]);
}
