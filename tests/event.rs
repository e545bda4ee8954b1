use choco::event::{Event, Iter};
use choco::{Signal, StrRange};

#[test]
fn full() {
    const SAMPLE: &str = "- Hello! @wave\n@c{1}@{i<4}- Hi!\n@c{2}@{s>7}- Howdy!@\n";
    let mut iter = Iter::new(SAMPLE);
    let event = iter.next().unwrap();
    assert!(
        matches!(
            event,
            Event::Text(StrRange {
                slice: "- Hello!",
                ..
            })
        ),
        "{event:?}"
    );
    let event = iter.next().unwrap();
    assert!(
        matches!(
            event,
            Event::Signal(Signal::Prompt(StrRange { slice: "wave", .. }))
        ),
        "{event:?}"
    );
    let event = iter.next().unwrap();
    assert!(matches!(event, Event::Break), "{event:?}");
    let event = iter.next().unwrap();
    assert!(
        matches!(
            event,
            Event::Signal(Signal::Call {
                prompt: StrRange { slice: "c", .. },
                param: StrRange { slice: "1", .. },
            })
        ),
        "{event:?}"
    );
    let event = iter.next().unwrap();
    assert!(
        matches!(
            event,
            Event::Signal(Signal::Param(StrRange { slice: "i<4", .. }))
        ),
        "{event:?}"
    );
    let event = iter.next().unwrap();
    assert!(
        matches!(event, Event::Text(StrRange { slice: "- Hi!", .. })),
        "{event:?}"
    );
    let event = iter.next().unwrap();
    assert!(matches!(event, Event::Break), "{event:?}");
    let event = iter.next().unwrap();
    assert!(
        matches!(
            event,
            Event::Signal(Signal::Call {
                prompt: StrRange { slice: "c", .. },
                param: StrRange { slice: "2", .. },
            })
        ),
        "{event:?}"
    );
    let event = iter.next().unwrap();
    assert!(
        matches!(
            event,
            Event::Signal(Signal::Param(StrRange { slice: "s>7", .. }))
        ),
        "{event:?}"
    );
    let event = iter.next().unwrap();
    assert!(
        matches!(
            event,
            Event::Text(StrRange {
                slice: "- Howdy!",
                ..
            })
        ),
        "{event:?}"
    );
    let event = iter.next().unwrap();
    assert!(matches!(event, Event::Signal(Signal::Ping)), "{event:?}");
    // the last line is empty: no line with events follows, so no break
    assert_eq!(iter.next(), None);
}

fn collect(text: &str) -> Vec<Event<'_>> {
    let mut iter = Iter::new(text);
    let mut out = Vec::new();
    while let Some(e) = iter.next() {
        out.push(e);
    }
    out
}

fn sr(slice: &str, range: std::ops::Range<usize>) -> StrRange<'_> {
    StrRange { slice, range }
}

#[test]
fn event_pings_between_text() {
    let events = collect("Hello, @ world! @");
    assert_eq!(
        events,
        vec![
            Event::Text(sr("Hello,", 0..6)),
            Event::Signal(Signal::Ping),
            Event::Text(sr(" world!", 8..15)),
            Event::Signal(Signal::Ping),
        ]
    );
}

#[test]
fn event_prompts_and_text() {
    let events = collect("@first_signal Hello, @second_signal world!");
    assert_eq!(
        events,
        vec![
            Event::Signal(Signal::Prompt(sr("first_signal", 1..13))),
            Event::Text(sr("Hello,", 14..20)),
            Event::Signal(Signal::Prompt(sr("second_signal", 22..35))),
            Event::Text(sr(" world!", 35..42)),
        ]
    );
}

#[test]
fn event_calls_keep_param_white_space() {
    let events = collect("Hello, @first_signal{ 20 84 }@second_signal{ #e13f3f } world!");
    assert_eq!(
        events,
        vec![
            Event::Text(sr("Hello,", 0..6)),
            Event::Signal(Signal::Call {
                prompt: sr("first_signal", 8..20),
                param: sr(" 20 84 ", 21..28),
            }),
            Event::Signal(Signal::Call {
                prompt: sr("second_signal", 30..43),
                param: sr(" #e13f3f ", 44..53),
            }),
            Event::Text(sr(" world!", 54..61)),
        ]
    );
}

#[test]
fn event_offsets_are_absolute() {
    let events = collect("ab\n@x{y}\n\n é ");
    assert_eq!(
        events,
        vec![
            Event::Text(sr("ab", 0..2)),
            Event::Break,
            Event::Signal(Signal::Call { prompt: sr("x", 4..5), param: sr("y", 6..7) }),
            Event::Text(sr(" é", 10..13)),
        ]
    );
}

#[test]
fn event_empty_text() {
    assert_eq!(collect(""), vec![]);
}

#[test]
fn event_empty_brackets_are_a_ping() {
    assert_eq!(
        collect("@{}@a{}"),
        vec![Event::Signal(Signal::Ping), Event::Signal(Signal::Prompt(sr("a", 4..5)))]
    );
}

#[test]
fn event_break_only_between_lines_with_events() {
    assert_eq!(
        collect("a\nb\n\n@\n  \nc"),
        vec![
            Event::Text(sr("a", 0..1)),
            Event::Break,
            Event::Text(sr("b", 2..3)),
            Event::Signal(Signal::Ping),
            Event::Text(sr("c", 10..11)),
        ]
    );
    let mut iter = Iter::new("\n\nx\n");
    assert_eq!(iter.next(), Some(Event::Text(sr("x", 2..3))));
    assert_eq!(iter.next(), None);
    assert_eq!(iter.next(), None);
}
