use tinyticker::inflate::{inflate, skip_zlib, Huff};
use tinyticker::png::decode;

/// Writes bits, the lowest of a byte first.
struct W {
    bytes: Vec<u8>,
    cur: u8,
    n: u8,
}
impl W {
    fn bit(&mut self, b: u32) {
        self.cur |= ((b & 1) as u8) << self.n;
        self.n += 1;
        if self.n == 8 {
            self.bytes.push(self.cur);
            self.cur = 0;
            self.n = 0;
        }
    }
    fn code(&mut self, value: u32, len: u8) {
        for i in (0..len).rev() {
            self.bit((value >> i) & 1);
        }
    }
    fn finish(mut self) -> Vec<u8> {
        if self.n > 0 {
            self.bytes.push(self.cur);
        }
        self.bytes
    }
}

fn chunk(typ: &[u8; 4], data: &[u8]) -> Vec<u8> {
    let mut v = Vec::new();
    v.extend_from_slice(&(data.len() as u32).to_be_bytes());
    v.extend_from_slice(typ);
    v.extend_from_slice(data);
    v.extend_from_slice(&[0; 4]);
    v
}

fn stored(data: &[u8]) -> Vec<u8> {
    let mut v = vec![0x78, 0x01, 0x01];
    v.extend_from_slice(&(data.len() as u16).to_le_bytes());
    v.extend_from_slice(&(!(data.len() as u16)).to_le_bytes());
    v.extend_from_slice(data);
    v.extend_from_slice(&[0; 4]);
    v
}

fn ihdr(w: u32, h: u32, depth: u8, color: u8) -> Vec<u8> {
    let mut d = Vec::new();
    d.extend_from_slice(&w.to_be_bytes());
    d.extend_from_slice(&h.to_be_bytes());
    d.extend_from_slice(&[depth, color, 0, 0, 0]);
    chunk(b"IHDR", &d)
}

fn png_of(chunks: &[Vec<u8>]) -> Vec<u8> {
    let mut v = vec![0x89, 0x50, 0x4e, 0x47, 0x0d, 0x0a, 0x1a, 0x0a];
    for c in chunks {
        v.extend_from_slice(c);
    }
    v
}

#[test]
fn inflate_stored_roundtrip() {
    let payload = b"deflate me";
    let stream = stored(payload);
    let out = inflate(skip_zlib(&stream).expect("自制流该过 zlib 头校验"), 1024)
        .expect("stored 必须能解");
    assert_eq!(out, payload);
    assert!(inflate(skip_zlib(&stream).unwrap(), payload.len() - 1).is_none());
}

#[test]
fn inflate_fixed_block_roundtrip() {
    let mut w = W {
        bytes: Vec::new(),
        cur: 0,
        n: 0,
    };
    w.bit(1);
    w.bit(1);
    w.bit(0);
    for lit in [b'H' as u32, b'i' as u32] {
        w.code(0x30 + lit, 8);
    }
    w.code(0, 7);
    let mut stream = vec![0x78, 0x01];
    stream.extend_from_slice(&w.finish());
    stream.extend_from_slice(&[0; 4]);
    assert_eq!(
        inflate(skip_zlib(&stream).unwrap(), 64).expect("fixed 块该能解"),
        b"Hi"
    );
}

#[test]
fn huffman_tables_reject_over_subscription() {
    assert!(Huff::build(&[1, 1, 1]).is_none(), "超完码表该拒");
    assert!(Huff::build(&[1, 2, 2]).is_some(), "完备表该收");
    assert!(Huff::build(&[0, 0, 0]).is_some());
}

#[test]
fn truecolor_rows_undo_every_filter() {
    let raw: Vec<u8> = vec![
        0, 10, 20, 30, 255, 40, 50, 60, 255,
        4, 0, 0, 0, 0, 0, 0, 0, 0,
    ];
    let img = png_of(&[ihdr(2, 2, 8, 6), chunk(b"IDAT", &stored(&raw))]);
    let a = decode(&img).expect("该解出来");
    assert_eq!((a.width, a.height), (2, 2));
    let f = &a.frames[0].rgba;
    assert_eq!(&f[0..4], &[10, 20, 30, 255]);
    assert_eq!(&f[4..8], &[40, 50, 60, 255]);
    assert_eq!(
        &f[8..12],
        &[10, 20, 30, 255],
        "Paeth 零差编码该逐像素等于上邻行"
    );
    assert_eq!(&f[12..16], &[40, 50, 60, 255]);
}

#[test]
fn indexed_4bit_expands_with_trns() {
    let raw = vec![0u8, 0x12, 0, 0x30];
    let plte = chunk(b"PLTE", &[9, 9, 9, 20, 20, 20, 30, 30, 30, 40, 40, 40]);
    let trns = chunk(b"tRNS", &[255, 0, 255, 255]);
    let img = png_of(&[ihdr(2, 2, 4, 3), plte, trns, chunk(b"IDAT", &stored(&raw))]);
    let a = decode(&img).expect("4-bit 索引图该能解");
    let f = &a.frames[0].rgba;
    assert_eq!(&f[0..4], &[20, 20, 20, 0], "索引 1 = 第二色 + 透明");
    assert_eq!(&f[4..8], &[30, 30, 30, 255], "索引 2");
    assert_eq!(&f[8..12], &[40, 40, 40, 255], "索引 3");
    assert_eq!(&f[12..16], &[9, 9, 9, 255], "索引 0");
}

#[test]
fn apng_frames_composite_onto_canvas() {
    let idat = stored(&[0, 200, 0, 0, 255, 0, 0, 0, 0]);
    let actl = chunk(b"acTL", &[0, 0, 0, 2, 0, 0, 0, 0]);
    let fctl = |seq: u32, x: u32, w: u32, delay_num: u16, dispose: u8, blend: u8| {
        let mut d = Vec::new();
        d.extend_from_slice(&seq.to_be_bytes());
        d.extend_from_slice(&w.to_be_bytes());
        d.extend_from_slice(&1u32.to_be_bytes());
        d.extend_from_slice(&x.to_be_bytes());
        d.extend_from_slice(&0u32.to_be_bytes());
        d.extend_from_slice(&delay_num.to_be_bytes());
        d.extend_from_slice(&10u16.to_be_bytes());
        d.extend_from_slice(&[dispose, blend]);
        chunk(b"fcTL", &d)
    };
    let fdat1 = {
        let mut d = vec![2u8, 0, 0, 0];
        d.extend_from_slice(&stored(&[0, 0, 0, 255, 255]));
        chunk(b"fdAT", &d)
    };
    let img = png_of(&[
        ihdr(2, 1, 8, 6),
        actl,
        fctl(0, 0, 2, 5, 0, 0),
        chunk(b"IDAT", &idat),
        fctl(1, 1, 1, 3, 0, 0),
        fdat1,
    ]);
    let a = decode(&img).expect("APNG 该解出来");
    assert_eq!(a.frames.len(), 2);
    assert_eq!(a.frames[0].delay, 500);
    assert_eq!(&a.frames[0].rgba[0..4], &[200, 0, 0, 255]);
    assert_eq!(&a.frames[0].rgba[4..8], &[0, 0, 0, 0], "首帧右半是透明原样");
    assert_eq!(&a.frames[1].rgba[0..4], &[200, 0, 0, 255]);
    assert_eq!(&a.frames[1].rgba[4..8], &[0, 0, 255, 255]);
}

#[test]
fn apng_dispose_background_clears_next_base() {
    let idat = stored(&[0, 1, 1, 1, 255, 2, 2, 2, 255]);
    let actl = chunk(b"acTL", &[0, 0, 0, 2, 0, 0, 0, 0]);
    let fctl = |seq: u32, x: u32, dispose: u8| {
        let mut d = Vec::new();
        d.extend_from_slice(&seq.to_be_bytes());
        d.extend_from_slice(&1u32.to_be_bytes());
        d.extend_from_slice(&1u32.to_be_bytes());
        d.extend_from_slice(&x.to_be_bytes());
        d.extend_from_slice(&0u32.to_be_bytes());
        d.extend_from_slice(&1u16.to_be_bytes());
        d.extend_from_slice(&10u16.to_be_bytes());
        d.extend_from_slice(&[dispose, 0]);
        chunk(b"fcTL", &d)
    };
    let fdat = |seq: u8, px: &[u8]| {
        let mut d = vec![seq, 0, 0, 0];
        d.extend_from_slice(&stored(&[0, px[0], px[1], px[2], 255]));
        chunk(b"fdAT", &d)
    };
    let img = png_of(&[
        ihdr(2, 1, 8, 6),
        actl,
        fctl(0, 0, 1),
        chunk(b"IDAT", &idat),
        fctl(1, 0, 0),
        fdat(2, &[9, 9, 9]),
    ]);
    let a = decode(&img).expect("dispose 图该解出来");
    assert_eq!(&a.frames[0].rgba[0..4], &[1, 1, 1, 255]);
    assert_eq!(
        &a.frames[0].rgba[4..8],
        &[0, 0, 0, 0],
        "不在子矩形内的像素不该凭空出现"
    );
    assert_eq!(&a.frames[1].rgba[0..4], &[9, 9, 9, 255]);
    assert_eq!(
        &a.frames[1].rgba[4..8],
        &[0, 0, 0, 0],
        "擦除区域外无人动过，仍是透明原样"
    );
}

#[test]
fn malformed_input_never_panics() {
    let good = png_of(&[
        ihdr(1, 1, 8, 6),
        chunk(b"IDAT", &stored(&[0, 1, 2, 3, 255])),
    ]);
    for cut in 0..good.len() {
        let _ = decode(&good[..cut]);
    }
    let huge = png_of(&[ihdr(4096, 4096, 8, 6), chunk(b"IDAT", &stored(&[0]))]);
    assert!(decode(&huge).is_none());
    let mut inter = ihdr(2, 2, 8, 6);
    assert_eq!(inter[8 + 8 + 4], 0);
    inter.insert(inter.len() - 4 - 1, 1);
    let img = png_of(&[inter, chunk(b"IDAT", &stored(&[0; 12]))]);
    assert!(decode(&img).is_none());
    assert!(
        decode(&png_of(&[
            ihdr(1, 1, 7, 6),
            chunk(b"IDAT", &stored(&[0; 4]))
        ]))
        .is_none()
    );
}

#[test]
fn the_limit_only_refuses() {
    let data: Vec<u8> = (0..=99).collect();
    let stream = stored(&data);
    let body = skip_zlib(&stream).unwrap();
    for max in 0..200 {
        let want = if max < 100 { None } else { Some(data.clone()) };
        assert_eq!(inflate(body, max), want, "{max}");
    }
}
