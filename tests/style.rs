use choco::{event_iter, Event, EventIter, Signal, StrRange, Style};

#[test]
fn style() {
    const SAMPLE: &str = "@style{bcqi}@{Hello}, world!";
    let mut iter = EventIter::new(SAMPLE);
    let next = iter.next().unwrap();
    let Event::Text { style, content } = next else {
        panic!("expected text");
    };
    assert_eq!(style, Style::bold() | Style::code() | Style::quote() | Style::italic());
    assert_eq!(content.slice, "Hello");
    let next = iter.next().unwrap();
    let Event::Text { style, content } = next else {
        panic!("expected text");
    };
    assert_eq!(style, Style::regular());
    assert_eq!(content.slice, ", world!");
}

fn collect(text: &str) -> Vec<Event<'_>> {
    let mut iter = event_iter(text);
    let mut out = Vec::new();
    while let Some(e) = iter.next() {
        out.push(e);
    }
    out
}

#[test]
fn style_flags_exact() {
    let events = collect("@style{bcqi}@{Hello}, world!");
    assert_eq!(
        events,
        vec![
            Event::Text { style: Style::bold() | Style::code() | Style::quote() | Style::italic(), content: StrRange { slice: "Hello", range: 14..19 } },
            Event::Text { style: Style::regular(), content: StrRange { slice: ", world!", range: 20..28 } },
        ]
    );
    assert_eq!((Style::bold() | Style::code() | Style::quote() | Style::italic()).bits(), 0b1_1110);
}

#[test]
fn style_codes_from_param() {
    assert_eq!(Style::from_param("pcqbis").bits(), 0b11_1111);
    assert_eq!(Style::from_param("xyz").bits(), 0);
    assert_eq!(Style::from_param("").bits(), 0);
    assert_eq!(Style::from_param("é s").bits(), 32);
    assert!(Style::from_param("sp").contains(Style::panel()));
    assert!(!Style::from_param("sp").contains(Style::code()));
    assert_eq!(Style::scratch().bits(), 32);
}

#[test]
fn style_without_param_ends_stream() {
    let events = collect("a @style{b} b\nc");
    assert_eq!(events, vec![Event::Text { style: Style::regular(), content: StrRange { slice: "a", range: 0..1 } }]);
    assert_eq!(collect("x@style{b}"), vec![Event::Text { style: Style::regular(), content: StrRange { slice: "x", range: 0..1 } }]);
}

#[test]
fn style_passes_other_events_through() {
    let events = collect("@wave{x}\n@");
    assert_eq!(
        events,
        vec![
            Event::Signal(Signal::Call {
                prompt: StrRange { slice: "wave", range: 1..5 },
                param: StrRange { slice: "x", range: 6..7 },
            }),
            Event::Break,
            Event::Signal(Signal::Ping),
        ]
    );
}
