use mousedraw::{try_parse_mouse_event, MouseEvent, ParseResult};

#[test]
fn mouse_event_parser_tst() {
        assert_eq!(try_parse_mouse_event(""), ParseResult::Incomplete);
        assert_eq!(try_parse_mouse_event("a"), ParseResult::Bad(0));
        assert_eq!(try_parse_mouse_event("\x1b"), ParseResult::Incomplete);
        assert_eq!(try_parse_mouse_event("\x1ba"), ParseResult::Bad(1));
        assert_eq!(try_parse_mouse_event("a\x1b"), ParseResult::Bad(0));

        assert_eq!(try_parse_mouse_event("\x1b["), ParseResult::Incomplete);
        assert_eq!(try_parse_mouse_event("\x1b]"), ParseResult::Bad(1));

        assert_eq!(try_parse_mouse_event("\x1b[<"), ParseResult::Incomplete);
        assert_eq!(try_parse_mouse_event("\x1b[<f"), ParseResult::Bad(3));

        assert_eq!(try_parse_mouse_event("\x1b[<5"), ParseResult::Incomplete);
        assert_eq!(try_parse_mouse_event("\x1b[<Q"), ParseResult::Bad(3));
        assert_eq!(try_parse_mouse_event("\x1b[<;"), ParseResult::Bad(3));

        assert_eq!(try_parse_mouse_event("\x1b[<53"), ParseResult::Incomplete);

        assert_eq!(try_parse_mouse_event("\x1b[<5;"), ParseResult::Incomplete);
        assert_eq!(try_parse_mouse_event("\x1b[<53;"), ParseResult::Incomplete);

        assert_eq!(try_parse_mouse_event("\x1b[<53;12;23M"), ParseResult::Complete(11, MouseEvent { x: 12, y: 23, button: 53, release: false }));
        assert_eq!(try_parse_mouse_event("\x1b[<53;12;23m"), ParseResult::Complete(11, MouseEvent { x: 12, y: 23, button: 53, release: true }));
        assert_eq!(try_parse_mouse_event("\x1b[<53;12;23a"), ParseResult::Bad(11));
}

#[test]
fn main_tst() {
        assert_eq!(try_parse_mouse_event(""), ParseResult::Incomplete);
        assert_eq!(try_parse_mouse_event("a"), ParseResult::Bad(0));
        assert_eq!(try_parse_mouse_event("\x1b"), ParseResult::Incomplete);
        assert_eq!(try_parse_mouse_event("\x1ba"), ParseResult::Bad(1));
        assert_eq!(try_parse_mouse_event("a\x1b"), ParseResult::Bad(0));

        assert_eq!(try_parse_mouse_event("\x1b["), ParseResult::Incomplete);
        assert_eq!(try_parse_mouse_event("\x1b]"), ParseResult::Bad(1));

        assert_eq!(try_parse_mouse_event("\x1b[<"), ParseResult::Incomplete);
        assert_eq!(try_parse_mouse_event("\x1b[<f"), ParseResult::Bad(3));

        assert_eq!(try_parse_mouse_event("\x1b[<5"), ParseResult::Incomplete);
        assert_eq!(try_parse_mouse_event("\x1b[<Q"), ParseResult::Bad(3));
        assert_eq!(try_parse_mouse_event("\x1b[<;"), ParseResult::Bad(3));

        assert_eq!(try_parse_mouse_event("\x1b[<53"), ParseResult::Incomplete);

        assert_eq!(try_parse_mouse_event("\x1b[<5;"), ParseResult::Incomplete);
        assert_eq!(try_parse_mouse_event("\x1b[<53;"), ParseResult::Incomplete);

        assert_eq!(try_parse_mouse_event("\x1b[<53;12;23M"), ParseResult::Complete(11, MouseEvent { x: 12, y: 23, button: 53, release: false }));
        assert_eq!(try_parse_mouse_event("\x1b[<53;12;23m"), ParseResult::Complete(11, MouseEvent { x: 12, y: 23, button: 53, release: true }));
        assert_eq!(try_parse_mouse_event("\x1b[<53;12;23a"), ParseResult::Bad(11));
}

#[test]
fn empty_and_stray_input() {
    assert_eq!(try_parse_mouse_event(""), ParseResult::Incomplete);
    assert_eq!(try_parse_mouse_event("x"), ParseResult::Bad(0));
}

#[test]
fn every_prefix_before_terminator_is_incomplete() {
    let full = "\x1b[<53;12;23M";
    for k in 0..full.len() {
        assert_eq!(try_parse_mouse_event(&full[..k]), ParseResult::Incomplete, "prefix {}", k);
    }
}

#[test]
fn press_and_release_decode() {
    let press = MouseEvent { x: 12, y: 23, button: 53, release: false };
    let lift = MouseEvent { x: 12, y: 23, button: 53, release: true };
    assert_eq!(try_parse_mouse_event("\x1b[<53;12;23M"), ParseResult::Complete(11, press));
    assert_eq!(try_parse_mouse_event("\x1b[<53;12;23m"), ParseResult::Complete(11, lift));
}

#[test]
fn bad_terminator() {
    assert_eq!(try_parse_mouse_event("\x1b[<53;12;23a"), ParseResult::Bad(11));
}

#[test]
fn trailing_input_after_report_is_left_alone() {
    let r = try_parse_mouse_event("\x1b[<0;1;2M\x1b[<0;3;4M");
    assert_eq!(r, ParseResult::Complete(8, MouseEvent { x: 1, y: 2, button: 0, release: false }));
    assert_eq!(r.consumed(), 9);
}

#[test]
fn bad_offset_is_first_deviation() {
    assert_eq!(try_parse_mouse_event("\x1b[<53;12x"), ParseResult::Bad(8));
    assert_eq!(try_parse_mouse_event("\x1b[<53;;"), ParseResult::Bad(6));
    assert_eq!(try_parse_mouse_event("\x1b[<53:"), ParseResult::Bad(5));
    assert_eq!(try_parse_mouse_event("\x1b[<53;12;M"), ParseResult::Bad(9));
    assert_eq!(try_parse_mouse_event("\x1b[<53;12;23;"), ParseResult::Bad(11));
    assert_eq!(try_parse_mouse_event("\x1b[<5\u{e9}"), ParseResult::Bad(4));
}

#[test]
fn largest_values_decode() {
    assert_eq!(
        try_parse_mouse_event("\x1b[<65535;4294967295;0004294967295M"),
        ParseResult::Complete(
            33,
            MouseEvent { x: 4294967295, y: 4294967295, button: 65535, release: false }
        )
    );
}

#[test]
fn overflow_is_bad_at_last_digit() {
    assert_eq!(try_parse_mouse_event("\x1b[<65536;1;1M"), ParseResult::Bad(7));
    assert_eq!(try_parse_mouse_event("\x1b[<1;4294967296;1M"), ParseResult::Bad(14));
    assert_eq!(try_parse_mouse_event("\x1b[<1;1;99999999999M"), ParseResult::Bad(17));
    assert_eq!(try_parse_mouse_event("\x1b[<99999999999"), ParseResult::Incomplete);
}

#[test]
fn consumed_counts() {
    assert_eq!(ParseResult::Incomplete.consumed(), 0);
    assert_eq!(ParseResult::Bad(0).consumed(), 1);
    assert_eq!(try_parse_mouse_event("\x1b[<53;12;23a").consumed(), 12);
}
