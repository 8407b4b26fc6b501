use tinyticker::audio::{
    beep, block_end, choice, decode_pcm, decode_wav, find_chunk, is_beep, parse_wav_header,
    refused_size, scale_volume, Sound, MAX_AUDIO_BYTES,
};

fn wav(codec: u16, channels: u16, bits: u16, rate: u32, data: &[u8]) -> Vec<u8> {
    let mut b = Vec::new();
    b.extend_from_slice(b"RIFF");
    b.extend_from_slice(&(0u32).to_le_bytes());
    b.extend_from_slice(b"WAVE");
    b.extend_from_slice(b"fmt ");
    b.extend_from_slice(&16u32.to_le_bytes());
    b.extend_from_slice(&codec.to_le_bytes());
    b.extend_from_slice(&channels.to_le_bytes());
    b.extend_from_slice(&rate.to_le_bytes());
    b.extend_from_slice(&(rate * channels as u32 * bits as u32 / 8).to_le_bytes());
    b.extend_from_slice(&(channels * bits / 8).to_le_bytes());
    b.extend_from_slice(&bits.to_le_bytes());
    b.extend_from_slice(b"LIST");
    b.extend_from_slice(&3u32.to_le_bytes());
    b.extend_from_slice(b"adx");
    b.extend_from_slice(&[0u8; 1]);
    b.extend_from_slice(b"data");
    b.extend_from_slice(&(data.len() as u32).to_le_bytes());
    b.extend_from_slice(data);
    b
}

#[test]
fn header_parses_and_routes_to_data() {
    let b = wav(1, 2, 16, 48000, &[1, 2, 3, 4]);
    let (ch, rate, bits, flt) = parse_wav_header(&b).expect("头该解出来");
    assert_eq!((ch, rate, bits, flt), (2, 48000, 16, false));
    assert_eq!(find_chunk(&b, 12, b"data"), Some(&[1u8, 2, 3, 4][..]));
}

#[test]
fn rejects_garbage_unknown_codec_and_bad_ranges() {
    assert!(parse_wav_header(b"not a wav at all!!").is_err());
    assert!(
        parse_wav_header(&wav(6, 1, 16, 44100, b""))
            .unwrap_err()
            .contains("编码")
    );
    assert!(
        parse_wav_header(&wav(1, 9, 16, 44100, b"")).is_err(),
        "9 声道越界"
    );
    assert!(
        parse_wav_header(&wav(1, 1, 16, 8000, b"")).is_ok(),
        "8000Hz 是下界，含"
    );
    assert!(
        parse_wav_header(&wav(1, 1, 16, 7999, b"")).is_err(),
        "低于下界该拒"
    );
}

#[test]
fn bit_depths_map_to_s16() {
    let s = decode_pcm(&[0, 255], 8, false, 2).unwrap();
    assert_eq!(s, vec![-32768i16, 32512]);
    let raw = [0x00u8, 0x40, 0x00, -0x40i8 as u8, 0x01, 0x00, 0xFF, 0x7F];
    let s = decode_pcm(&raw, 16, false, 2).unwrap();
    assert_eq!(s, vec![0x4000i16, -0x4000, 1, i16::MAX]);
    let s = decode_pcm(&[0xFF, 0xFF, 0x7F, 0x00, 0x00, 0x80], 24, false, 1).unwrap();
    assert_eq!(s, vec![0x7FFF, -0x8000]);
    let mut raw = Vec::new();
    raw.extend_from_slice(&(0x0001_8000i32).to_le_bytes());
    let s = decode_pcm(&raw, 32, false, 1).unwrap();
    assert_eq!(s, vec![1i16]);
    let mut raw = Vec::new();
    raw.extend_from_slice(&1.5f32.to_le_bytes());
    raw.extend_from_slice(&(-0.5f32).to_le_bytes());
    let s = decode_pcm(&raw, 32, true, 2).unwrap();
    assert_eq!(s[0], i16::MAX);
    assert!((s[1] + 16383).abs() <= 1, "{s:?}");
    assert!(decode_pcm(&[0; 3], 16, false, 2).is_none());
    assert!(decode_pcm(&[0; 24], 12, false, 1).is_none());
}

#[test]
fn stereo_stays_interleaved() {
    let mut raw = Vec::new();
    raw.extend_from_slice(&1.0f32.to_le_bytes());
    raw.extend_from_slice(&(-1.0f32).to_le_bytes());
    let s = decode_pcm(&raw, 32, true, 2).unwrap();
    assert_eq!(s, vec![i16::MAX, -i16::MAX]);
}

#[test]
fn volume_scales_and_clips() {
    let mut s = vec![1000i16, -2000, 0];
    scale_volume(&mut s, 50);
    assert_eq!(s, vec![500, -1000, 0]);
    let mut t = vec![10i16];
    scale_volume(&mut t, 100);
    assert_eq!(t, vec![10], "满音量不许动样本");
}

#[test]
fn beep_is_two_tones_with_a_silent_gap() {
    let a = beep();
    assert_eq!((a.rate, a.channels), (44100, 2));
    assert!(!a.samples.is_empty());
    assert!(a.samples.chunks(2).all(|f| f[0] == f[1]));
    let longest_silence = a
        .samples
        .chunks(2)
        .map(|f| i32::from(f[0]).abs())
        .scan(0u32, |run, v| {
            *run = if v == 0 { *run + 1 } else { 0 };
            Some(*run)
        })
        .max()
        .unwrap_or(0);
    assert!(longest_silence >= 2000, "间隙太短（{longest_silence} 帧）");
    assert!(a.samples.iter().any(|&v| v != 0));
}

#[test]
fn beep_sentinels_are_recognized() {
    assert!(is_beep("beep") && is_beep("BEEP") && is_beep(" SYSTEM_BEEP "));
    assert!(!is_beep("~/x.wav"));
}

#[test]
fn beep_follows_the_formula_of_its_tones() {
    let a = beep();
    let (tone, gap, edge) = (5292usize, 2646usize, 352usize);
    assert_eq!(a.samples.len(), 2 * (2 * tone + gap));
    for s in 0..tone {
        let env = if s < edge {
            s as f32 / edge as f32
        } else if s >= tone - edge {
            (tone - 1 - s) as f32 / edge as f32
        } else {
            1.0
        };
        let wave = (s as f32 * 880.0 * 2.0 * std::f32::consts::PI / 44_100.0).sin();
        let want = (0.6f32 * env * wave * i16::MAX as f32).round() as i32;
        let got = i32::from(a.samples[2 * s]);
        assert!((got - want).abs() <= 1, "{s}: {got} {want}");
        assert_eq!(a.samples[2 * s], a.samples[2 * (s + tone + gap)]);
    }
    assert!(a.samples[2 * tone..2 * (tone + gap)].iter().all(|v| *v == 0));
}

#[test]
fn float_samples_round_as_single_precision_does() {
    let numbers = [
        0.0f32, -0.0, 1.0, -1.0, 0.999_999_94, 0.5, -0.25, 1e-4, 3.0e-5, 3.1e-5, 1e-30, 2.0, -7.5,
        f32::INFINITY, f32::NEG_INFINITY, f32::NAN, 0.123_456_79, -0.987_654_3, 1.0e-45,
    ];
    for f in numbers {
        let want = (f.clamp(-1.0, 1.0) * i16::MAX as f32) as i16;
        assert_eq!(decode_pcm(&f.to_le_bytes(), 32, true, 1), Some(vec![want]), "{f}");
        let d = f64::from(f);
        assert_eq!(decode_pcm(&d.to_le_bytes(), 64, true, 1), Some(vec![want]), "{d}");
    }
    let mut x: u32 = 12345;
    for _ in 0..2000 {
        x = x.wrapping_mul(1_664_525).wrapping_add(1_013_904_223);
        let d = f64::from(x) / 4_294_967_296.0 * 2.2 - 1.1;
        let want = ((d as f32).clamp(-1.0, 1.0) * i16::MAX as f32) as i16;
        assert_eq!(decode_pcm(&d.to_le_bytes(), 64, true, 1), Some(vec![want]), "{d}");
        let f = d as f32;
        assert_eq!(decode_pcm(&f.to_le_bytes(), 32, true, 1), Some(vec![want]), "{f}");
    }
    let near_one = 1.0f64 - 1e-16;
    assert_eq!(decode_pcm(&near_one.to_le_bytes(), 64, true, 1), Some(vec![32_767]));
}

#[test]
fn a_whole_file_decodes_or_says_what_is_wrong() {
    let a = decode_wav(&wav(1, 2, 16, 48000, &[1, 0, 2, 0])).unwrap();
    assert_eq!((a.samples, a.rate, a.channels), (vec![1, 2], 48000, 2));
    let err = |b: &[u8]| decode_wav(b).err().unwrap();
    assert_eq!(err(b"RIFF"), "不是 RIFF/WAVE 文件");
    assert_eq!(err(b"RIFF....WAVE"), "WAV 里没有 fmt 块");
    assert_eq!(err(b"RIFF....WAVEfmt \x02\0\0\0\x01\0"), "fmt 块太短");
    assert_eq!(err(&wav(6, 1, 16, 44100, b"")), "不支持的编码 6（只解 PCM/float；MP3 等不支持）");
    assert_eq!(err(&wav(1, 9, 16, 7999, b"")), "越界的声道数/采样率：9ch @7999Hz");
    assert_eq!(err(&wav(3, 1, 16, 44100, &[0, 0])), "不支持的位深/编码：16 bit float");
    assert_eq!(err(&wav(1, 1, 12, 44100, &[0, 0])), "不支持的位深/编码：12 bit PCM");
    let cut = wav(1, 1, 16, 44100, &[1, 2, 3, 4]);
    assert_eq!(err(&cut[..cut.len() - 1]), "WAV 里没有 data 块");
    assert_eq!(refused_size(MAX_AUDIO_BYTES), None);
    assert_eq!(refused_size(MAX_AUDIO_BYTES + 1).as_deref(), Some("文件超过 4 MB"));
}

#[test]
fn what_is_not_heard_is_not_played() {
    assert!(choice("  ", 50, None).is_none());
    assert!(choice("beep", 0, None).is_none());
    assert!(matches!(choice(" Beep ", 200, None), Some((Sound::Beep, 100))));
    match choice(" ~/x.wav ", 40, Some("/home/u")) {
        Some((Sound::File(p), 40)) => assert_eq!(p, "/home/u/x.wav"),
        _ => panic!("no file"),
    }
    let mut s = vec![i16::MIN, -1, 1, i16::MAX];
    scale_volume(&mut s, 0);
    assert_eq!(s, vec![0, 0, 0, 0]);
    let mut s = vec![i16::MIN, 255];
    scale_volume(&mut s, 99);
    assert_eq!(s, vec![-32384, 252]);
    assert_eq!((block_end(0, 10_000, 2), block_end(8192, 10_000, 2)), (4096, 10_000));
}
