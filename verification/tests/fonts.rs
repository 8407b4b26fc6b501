use tinyticker::config::TextFont;
use tinyticker::fonts::{
    ascent_px, font_warning, next_candidate, Candidate, Faces, Slot, Step, Walk, FACE_ASCENDER,
    FACE_FACE_FLAGS, FACE_FAMILY_NAME, FACE_GLYPH, FACE_UNITS_PER_EM, MAX_ENTRIES, SLOT_ADVANCE_X,
    SLOT_BUFFER, SLOT_LEFT, SLOT_PITCH, SLOT_PIXEL_MODE, SLOT_ROWS, SLOT_TOP, SLOT_WIDTH,
};
use tinyticker::text::score_family;

#[test]
fn subface_scoring_prefers_simplified() {
    assert!(score_family("Noto Sans CJK SC") > score_family("Noto Sans CJK JP"));
    assert!(score_family("Noto Sans CJK SC") > score_family("Noto Sans CJK TC"));
    assert_eq!(
        score_family("Noto Sans CJK JP"),
        score_family("Noto Sans CJK KR")
    );
    assert!(score_family("Terminess Nerd Font") >= 3);
}

#[test]
fn probed_offsets_are_ordered_and_disjoint() {
    let slot = [
        SLOT_ADVANCE_X,
        SLOT_ROWS,
        SLOT_WIDTH,
        SLOT_PITCH,
        SLOT_BUFFER,
        SLOT_PIXEL_MODE,
        SLOT_LEFT,
        SLOT_TOP,
    ];
    let mut prev = 0;
    for o in slot {
        assert!(o > prev, "槽位字段顺序倒了：{o} 不在 {prev} 之后");
        prev = o;
    }
    assert_eq!(SLOT_LEFT, SLOT_ROWS + 40);
    let face = [
        FACE_FACE_FLAGS,
        FACE_FAMILY_NAME,
        FACE_UNITS_PER_EM,
        FACE_ASCENDER,
        FACE_GLYPH,
    ];
    for w in face.windows(2) {
        assert!(w[1] > w[0]);
    }
}

#[test]
fn hidden_entries_and_other_files_are_passed_over() {
    let mut w = Walk::new();
    assert_eq!(w.see(".cache", true), Some(Step::Skip));
    assert_eq!(w.see("noto", true), Some(Step::Enter));
    assert_eq!(w.see("README.md", false), Some(Step::Skip));
    assert_eq!(w.see("wqy-microhei.ttc", false), Some(Step::Font(4)));
    assert_eq!(w.budget, MAX_ENTRIES - 4);
    assert!(w.enters(3) && !w.enters(4));
    w.budget = 0;
    assert_eq!(w.see("noto", true), None);
    assert!(!w.enters(0));
}

#[test]
fn fonts_are_tried_by_rank_and_path() {
    let all: Vec<Candidate> = [(1, "/f/a.ttf"), (4, "/f/b-x/n.ttc"), (4, "/f/b/z.ttc"), (2, "/f/c.ttf")]
        .iter()
        .map(|(rank, path)| Candidate { rank: *rank, path: path.to_string() })
        .collect();
    let mut order = Vec::new();
    let mut last = None;
    while let Some(i) = next_candidate(&all, last) {
        order.push(i);
        last = Some(i);
    }
    assert_eq!(order, vec![2, 1, 3, 0]);
    assert_eq!(next_candidate(&[], None), None);
}

#[test]
fn the_best_face_of_a_file_is_kept() {
    let mut f = Faces::new();
    assert!(!f.offer(0, "Noto Sans CJK JP"));
    assert!(!f.offer(1, "Noto Sans CJK KR"));
    assert_eq!(f.best, Some((2, 0)));
    assert!(f.offer(2, "Noto Sans CJK SC"));
    assert_eq!(f.best, Some((4, 2)));
    let wanted = TextFont::Path("x.ttf".into());
    assert_eq!(font_warning(&wanted, false).as_deref(), Some("⚠️ text_font = x.ttf 打不开，改用自动发现的字体"));
    assert_eq!(font_warning(&wanted, true), None);
    assert_eq!(font_warning(&TextFont::Auto, false), None);
}

#[test]
fn a_glyph_is_copied_without_the_filling_of_its_rows() {
    let good = Slot { rows: 2, width: 3, pitch: 4, mode: 2, left: -1, top: 7, advance: 65 };
    assert_eq!(good.bytes(), Some(7));
    let ink = good.ink(&[1, 2, 3, 9, 4, 5, 6]).unwrap();
    assert_eq!(ink.gray, vec![1, 2, 3, 4, 5, 6]);
    assert_eq!((ink.w, ink.h, ink.left, ink.top, ink.advance), (3, 2, -1, 7, 2));
    let bad = |s: Slot| assert!(s.bytes().is_none() && s.ink(&[]).is_none());
    bad(Slot { rows: 0, ..good });
    bad(Slot { width: 193, ..good });
    bad(Slot { mode: 1, ..good });
    bad(Slot { pitch: 2, ..good });
    bad(Slot { pitch: -4, ..good });
    bad(Slot { pitch: 100_000, ..good });
    let one = Slot { rows: 1, pitch: -4, advance: -5, ..good };
    assert_eq!(one.ink(&[1, 2, 3]).unwrap().advance, 1);
    assert_eq!(Slot { advance: i64::MAX, ..good }.ink(&[0; 7]).unwrap().advance, 1);
    assert_eq!((ascent_px(1000, 880, 24), ascent_px(0, 880, 24), ascent_px(1000, -1, 0)), (21, 19, 1));
}
