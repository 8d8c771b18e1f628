use mousedraw::decoder::Decoder;
use mousedraw::{try_parse_mouse_event, MouseEvent, ParseResult};

fn feed(d: &mut Decoder, text: &str) -> Vec<ParseResult> {
    text.chars().map(|c| d.push(c)).collect()
}

#[test]
fn decoder_reads_report_one_char_at_a_time() {
    let mut d = Decoder::new();
    let text = "\x1b[<53;12;23M";
    let outcomes = feed(&mut d, text);
    for (k, r) in outcomes.iter().enumerate().take(11) {
        assert_eq!(*r, ParseResult::Incomplete, "char {}", k);
    }
    assert_eq!(
        outcomes[11],
        ParseResult::Complete(11, MouseEvent { x: 12, y: 23, button: 53, release: false })
    );
    assert_eq!(d.pending_len(), 0);
}

#[test]
fn decoder_release_and_next_report() {
    let mut d = Decoder::new();
    let outcomes = feed(&mut d, "\x1b[<0;1;2m\x1b[<3;4;5M");
    assert_eq!(
        outcomes[8],
        ParseResult::Complete(8, MouseEvent { x: 1, y: 2, button: 0, release: true })
    );
    assert_eq!(
        outcomes[17],
        ParseResult::Complete(8, MouseEvent { x: 4, y: 5, button: 3, release: false })
    );
}

#[test]
fn decoder_agrees_with_whole_buffer_parse() {
    for text in ["a", "\x1b]", "\x1b[<f", "\x1b[<53;12;23a", "\x1b[<53;;", "\x1b[<1;2;3m"] {
        let mut d = Decoder::new();
        let mut last = ParseResult::Incomplete;
        for c in text.chars() {
            last = d.push(c);
            if last != ParseResult::Incomplete {
                break;
            }
        }
        assert_eq!(last, try_parse_mouse_event(text), "{:?}", text);
    }
}

#[test]
fn decoder_overflow_leaves_terminating_char() {
    let mut d = Decoder::new();
    let outcomes = feed(&mut d, "\x1b[<65536");
    assert!(outcomes.iter().all(|r| *r == ParseResult::Incomplete));
    assert_eq!(d.pending_len(), 8);
    let r = d.push(';');
    assert_eq!(r, ParseResult::Bad(7));
    assert_eq!(r.consumed(), 8);
    assert_eq!(d.pending_len(), 0);
    assert_eq!(d.push(';'), ParseResult::Bad(0));
}
