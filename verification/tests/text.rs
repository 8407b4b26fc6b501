use tinyticker::fonts::font_roots;
use tinyticker::text::{fit, font_rank, shape, GlyphBody, Inks};

#[test]
fn ascii_run_is_exactly_the_bitmap_metrics() {
    for cell in [1, 2, 3, 7] {
        let r = shape("12:34", cell, 0, &Inks::none());
        assert_eq!(r.width, 5 * 8 * cell);
        assert_eq!((r.top, r.bottom), (0, (8 * cell) as i32));
        assert_eq!(r.glyphs.len(), 5);
        assert!(matches!(r.glyphs[0].body, GlyphBody::Bits { cell: c, .. } if c == cell));
    }
}

#[test]
fn unknown_codepoint_leaves_a_hole() {
    let r = shape("a\u{0378}b", 2, 0, &Inks::none());
    assert_eq!(r.width, 3 * 8 * 2);
    assert_eq!(r.glyphs.len(), 2, "画不出的那个不该产出一个字形");
    assert_eq!(r.glyphs[1].x, 2 * 8 * 2, "第三个字要排在空位之后");
}

#[test]
fn fit_stops_at_the_width_budget() {
    assert_eq!(
        fit("1234567890", 1, 40, &Inks::none()),
        "12345",
        "40px 放得下整五格，不该退让"
    );
    assert_eq!(
        fit("1234567890", 1, 39, &Inks::none()),
        "1234",
        "差一像素就该整字退让，不留半格"
    );
    assert_eq!(fit("1234", 1, 40, &Inks::none()), "1234", "放得下不该被截");
    assert_eq!(fit("", 1, 40, &Inks::none()), "");
    assert_eq!(fit("1234", 1, 0, &Inks::none()), "", "预算为零就不该留字");
    assert_eq!(fit("1234", 1, u32::MAX, &Inks::none()), "1234", "预算拉满不许溢出");
}

#[test]
fn zero_cell_is_treated_as_one() {
    assert_eq!(shape("abcd", 0, 0, &Inks::none()).width, 4 * 8);
    assert_eq!(fit("abcd", 0, 16, &Inks::none()), "ab");
}

#[test]
fn font_rank_prefers_sans_cjk() {
    assert!(font_rank("NotoSansCJK-Regular.ttc") > font_rank("NotoSerifCJK-Regular.ttc"));
    assert!(font_rank("NotoSansCJK-Regular.ttc") > font_rank("NotoSansCJK-JP.ttc"));
    assert!(font_rank("wqy-microhei.ttc") >= 4);
    assert!(font_rank("TerminessNerdFont.ttf") > 0, "拉丁体也要能补符号");
    assert_eq!(font_rank("README.md"), 0);
}

#[test]
fn high_codepoints_never_come_from_the_bitmap() {
    for ch in ['中', '文', '\u{00e9}', '\u{2460}'] {
        if let Some((_, body)) = Inks::none().glyph(ch, 2) {
            assert!(matches!(body, GlyphBody::Gray { .. }), "{ch} 竟然来自点阵");
        }
    }
    let hole = shape("\u{0378}", 2, 0, &Inks::none());
    assert!(hole.glyphs.is_empty());
    assert_eq!(hole.width, 8 * 2);
}

#[test]
fn fit_never_overflows_the_budget() {
    let mixed = "编译完成 55% 中 ab";
    for cell in [1u32, 2, 4] {
        for budget in [0u32, 7, 8, 23, 40, 100, 160, 4000] {
            let kept = fit(mixed, cell, budget, &Inks::none());
            let used = shape(&kept, cell, 0, &Inks::none()).width;
            assert!(
                used <= budget,
                "cell={cell} 预算 {budget} 却排下了 {used}：{kept:?}"
            );
            if let Some(next) = mixed.chars().nth(kept.chars().count()) {
                let would_be = used + shape(&next.to_string(), cell, 0, &Inks::none()).width;
                assert!(
                    would_be > budget,
                    "预算 {budget} 还能放下 {next:?}，不该截断"
                );
            }
        }
    }
}

#[test]
fn font_roots_are_absolute_and_deduped() {
    for (data, home) in [
        (None, None),
        (Some("/home/u/.local/share"), Some("/home/u")),
        (Some("relative"), Some("also/relative")),
        (Some(""), Some("/root")),
    ] {
        let roots = font_roots(data, home);
        assert!(!roots.is_empty());
        assert!(roots.iter().all(|p| p.starts_with('/')));
        let mut seen = std::collections::HashSet::new();
        assert!(
            roots.iter().all(|p| seen.insert(p.clone())),
            "不该有重复的根"
        );
    }
}
