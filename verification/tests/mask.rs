use tinyticker::mask::{place_of, Mask};
use tinyticker::text::{Glyph, GlyphBody};

fn square() -> Mask {
    Mask { w: 3, h: 3, px: vec![0, 0, 0, 0, 90, 0, 0, 0, 0] }
}

#[test]
fn beside_the_rectangle_is_nothing() {
    let m = square();
    assert_eq!(m.get(1, 1), 90);
    assert_eq!(m.get(3, 1), 0);
    assert_eq!(m.get(1, u32::MAX), 0);
    let e = Mask { w: 2, h: 1, px: vec![7, 9] };
    assert_eq!(e.clamped(-5, -5), 7);
    assert_eq!(e.clamped(5, 5), 9);
    assert_eq!(Mask::new(0, 5).clamped(1, 1), 0);
}

#[test]
fn pixels_are_set_where_they_are() {
    let mut m = Mask::new(2, 2);
    m.put(1, 0, 5);
    m.put(2, 0, 6);
    m.put(0, 9, 7);
    assert_eq!(m.px, [0, 5, 0, 0]);
    assert_eq!(place_of(3, 2, 2), (1, 1));
}

#[test]
fn blur_takes_means() {
    let m = square().blurred(1);
    assert_eq!(m.px, [10; 9]);
    assert_eq!(square().blurred(0).px, square().px);
}

#[test]
fn masks_are_eroded_moved_and_scaled() {
    let full = Mask { w: 3, h: 1, px: vec![255, 200, 0] };
    assert_eq!(full.eroded(1).px, [200, 0, 0]);
    // at least one pixel goes
    assert_eq!(full.eroded(0).px, [200, 0, 0]);
    assert_eq!(full.shifted(1, 0).px, [0, 255, 200]);
    assert_eq!(full.shifted(-1, 0).px, [200, 0, 0]);
    assert_eq!(full.shifted(0, 1).px, [0, 0, 0]);
    assert_eq!(full.gain(1, 2).px, [127, 100, 0]);
    let less = Mask { w: 3, h: 1, px: vec![55, 255, 1] };
    assert_eq!(full.subtract(&less).px, [200, 0, 0]);
}

#[test]
fn of_two_coverages_the_greater_stays() {
    let mut m = Mask { w: 3, h: 1, px: vec![100, 100, 100] };
    let g = Glyph {
        x: 0,
        y: 0,
        body: GlyphBody::Gray { gray: vec![50, 150], w: 2, h: 1, ascent: 1 },
    };
    m.raise_glyph(&g, 1, 0);
    assert_eq!(m.px, [100, 100, 150]);
    m.raise_glyph(&g, -5, 0);
    assert_eq!(m.px, [100, 100, 150]);
}
