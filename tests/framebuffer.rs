use mousedraw::console_codes::goto;
use mousedraw::framebuffer::{glyph, Framebuffer, RenderOp};
use mousedraw::MouseEvent;

fn press(x: u32, y: u32) -> MouseEvent {
    MouseEvent { x, y, button: 32, release: false }
}

#[test]
fn press_sets_quadrant_and_renders_cell() {
    let mut fb = Framebuffer::new(1, 1);
    let op = fb.apply(press(4, 6));
    assert_eq!(op, Some(RenderOp { row: 4, col: 3, glyph: '\u{2598}' }));
    assert_eq!(fb.mask(2, 3), 1);
    assert_eq!(fb.mask(3, 2), 0);
}

#[test]
fn scale_divides_pixels_before_quantizing() {
    let mut fb = Framebuffer::new(5, 10);
    let op = fb.apply(press(12, 23));
    assert_eq!(op, Some(RenderOp { row: 2, col: 2, glyph: '\u{2598}' }));
    let op = fb.apply(press(17, 33));
    assert_eq!(op, Some(RenderOp { row: 2, col: 2, glyph: '\u{259a}' }));
    assert_eq!(fb.mask(1, 1), 9);
}

#[test]
fn same_event_twice_is_idempotent() {
    let mut fb = Framebuffer::new(1, 1);
    let e = press(7, 2);
    let first = fb.apply(e);
    let mask = fb.mask(3, 1);
    let second = fb.apply(e);
    assert_eq!(first, second);
    assert_eq!(fb.mask(3, 1), mask);
    assert_eq!(mask, 2);
}

#[test]
fn masks_only_grow() {
    let mut fb = Framebuffer::new(1, 1);
    let mut prev = fb.mask(2, 3);
    for (x, y) in [(4, 6), (4, 6), (5, 6), (4, 7), (5, 7), (4, 7)] {
        fb.apply(press(x, y));
        let now = fb.mask(2, 3);
        assert_eq!(now & prev, prev);
        prev = now;
    }
    assert_eq!(prev, 15);
}

#[test]
fn four_quadrants_fill_cell_in_any_order() {
    let orders = [
        [(0, 0), (1, 0), (0, 1), (1, 1)],
        [(1, 1), (0, 1), (1, 0), (0, 0)],
        [(0, 1), (1, 0), (1, 1), (0, 0)],
    ];
    for order in orders {
        let mut fb = Framebuffer::new(1, 1);
        let mut last = None;
        for (dx, dy) in order {
            last = fb.apply(press(10 + dx, 20 + dy));
        }
        assert_eq!(fb.mask(5, 10), 15);
        assert_eq!(last, Some(RenderOp { row: 11, col: 6, glyph: '\u{2588}' }));
    }
}

#[test]
fn release_changes_nothing() {
    let mut fb = Framebuffer::new(1, 1);
    fb.apply(press(4, 6));
    let op = fb.apply(MouseEvent { x: 5, y: 7, button: 0, release: true });
    assert_eq!(op, None);
    assert_eq!(fb.mask(2, 3), 1);
}

#[test]
fn glyph_table_ends_and_distinct() {
    assert_eq!(glyph(0), ' ');
    assert_eq!(glyph(15), '\u{2588}');
    assert_eq!(glyph(6), '\u{259e}');
    for a in 0u8..16 {
        for b in 0u8..16 {
            if a != b {
                assert_ne!(glyph(a), glyph(b));
            }
        }
    }
}

#[test]
fn goto_writes_row_and_column() {
    assert_eq!(goto(3, 12), "\x1b[3;12H");
    assert_eq!(goto(1, 1), "\x1b[1;1H");
    assert_eq!(goto(0, 1000), "\x1b[0;1000H");
}
