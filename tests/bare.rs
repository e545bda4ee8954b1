use choco::bare::{RawEvent, RawEventIter, RawEventKind};

fn items(text: &str) -> Vec<RawEvent> {
    let mut iter = RawEventIter::new(text);
    let mut out = Vec::new();
    while let Some(e) = iter.next() {
        out.push(e);
    }
    out
}

#[test]
fn bare_signals_leave_out_their_at() {
    assert_eq!(
        items("Hello, @ world! @"),
        vec![
            RawEvent::text(0..7),
            RawEvent::signal(8..8),
            RawEvent::text(8..16),
            RawEvent::signal(17..17),
        ]
    );
}

#[test]
fn bare_brackets_have_no_meaning() {
    let text = "@a{b} c@@d";
    let got = items(text);
    assert_eq!(
        got,
        vec![
            RawEvent::signal(1..5),
            RawEvent::text(5..7),
            RawEvent::signal(8..8),
            RawEvent::signal(9..10),
        ]
    );
    assert_eq!(got[0].as_of(text).substr(), "a{b}");
    assert_eq!(got[3].as_of(text).substr(), "d");
    assert_eq!(items(""), vec![]);
}

#[test]
fn bare_kinds_and_ranges() {
    let e = RawEvent::signal(2..4);
    assert!(e.is_signal());
    assert!(!e.is_text());
    assert_eq!(e.kind, RawEventKind::Signal);
    let r = e.as_of("ab@cd");
    assert_eq!(r.full, "ab@cd");
    assert_eq!(r.range, 2..4);
    let far = RawEvent::text(7..9).as_of("ab");
    assert_eq!(far.range, 7..9);
    assert!(RawEvent::text(0..1).is_text());
}
