use tinyticker::textsrc::{extract, first_line, Source, MAX_BYTES};

#[test]
fn takes_the_first_non_empty_line() {
    assert_eq!(first_line("hello\nworld\n"), "hello");
    assert_eq!(first_line("\n  \nsecond\nthird"), "second");
    assert_eq!(first_line("only"), "only");
}

#[test]
fn strips_crlf_and_surrounding_blanks() {
    assert_eq!(first_line("  build 42 \r\n"), "build 42");
    assert_eq!(first_line("\t42%\t\n"), "42%");
}

#[test]
fn empty_and_blank_only_input_yield_nothing() {
    assert_eq!(first_line(""), "");
    assert_eq!(first_line("\n\n   \n"), "");
}

#[test]
fn control_characters_are_rejected() {
    assert_eq!(first_line("\x1b[2J\r"), "");
    assert_eq!(first_line("ok\x00tail\nnext\n"), "next");
}

#[test]
fn invalid_utf8_is_treated_as_no_content() {
    assert_eq!(extract(&[0xe4, 0xb8, 0x61]), "");
    assert_eq!(extract(b"plain ascii\n"), "plain ascii");
}

#[test]
fn unconfigured_source_does_nothing() {
    let mut s = Source::new(None, None);
    assert!(!s.refresh(Some((1, 1))));
    assert_eq!(s.text(), None);
    assert!(Source::new(Some(""), None).path.is_none());
    assert!(Source::new(Some("   "), None).path.is_none());
    assert!(Source::new(None, None).path.is_none());
}

#[test]
fn missing_file_is_silently_inactive() {
    let mut s = Source::new(Some("/definitely/not/here/tinyticker.txt"), None);
    assert!(!s.refresh(None));
    assert_eq!(s.text(), None);
    assert_eq!(s.stamp, None);
}

#[test]
fn a_file_is_read_when_it_changes_and_forgotten_when_it_vanishes() {
    let mut s = Source::new(Some("~/out.txt"), Some("/home/u"));
    assert_eq!(s.path.as_deref(), Some("/home/u/out.txt"));
    assert!(s.refresh(Some((4, 1))));
    s.fill(Some(b"aaa\n"));
    assert_eq!(s.text(), Some("aaa"));
    assert!(!s.refresh(Some((4, 1))), "the same file is not read again");
    assert_eq!(s.text(), Some("aaa"));
    assert!(s.refresh(Some((17, 1))));
    assert_eq!(s.text(), None, "nothing of the former content stays");
    s.fill(Some(b"much longer line\n"));
    assert_eq!(s.text(), Some("much longer line"));
    assert!(s.refresh(Some((1, 2))));
    s.fill(Some(b"\n"));
    assert_eq!(s.text(), None);
    assert!(s.refresh(Some((5, 3))));
    s.fill(None);
    assert_eq!(s.text(), None);
    assert!(!s.refresh(None));
    assert_eq!((s.text(), s.stamp), (None, None));
}

#[test]
fn oversized_file_is_refused() {
    let mut s = Source::new(Some("/tmp/out.txt"), None);
    assert!(!s.refresh(Some((MAX_BYTES + 1, 1))));
    assert_eq!(s.text(), None, "超限文件不该被采信");
    assert!(s.refresh(Some((MAX_BYTES, 2))));
    s.fill(Some(&vec![98u8; MAX_BYTES as usize]));
    assert_eq!(s.text().map(|t| t.len()), Some(MAX_BYTES as usize), "刚好在上限内要能读");
}

#[test]
fn c1_controls_are_controls_too() {
    assert_eq!(first_line("a\u{85}b\nc"), "c");
    assert_eq!(first_line("a\u{7f}\n\u{a0}"), "\u{a0}");
}

#[test]
fn reads_a_real_file_and_clears_when_it_vanishes() {
    let mut s = Source::new(Some("/tmp/out.txt"), None);
    let look = |s: &mut Source, text: &str, at: u64| {
        if s.refresh(Some((text.len() as u64, at))) {
            s.fill(Some(text.as_bytes()));
        }
    };
    look(&mut s, "aaa\n", 1);
    assert_eq!(s.text(), Some("aaa"));
    look(&mut s, "bbb\n", 1);
    assert!(s.text() == Some("aaa") || s.text() == Some("bbb"), "两种都可能，取决于时间戳粒度");
    look(&mut s, "much longer line\n", 1);
    assert_eq!(s.text(), Some("much longer line"));
    look(&mut s, "\n", 1);
    assert_eq!(s.text(), None);
    s.refresh(None);
    assert_eq!(s.text(), None, "文件消失后必须清空");
}
