use choco::raw::{Iter, Range};

#[test]
fn just_text() {
    const SAMPLE: &str = "Hello, world!";
    let mut iter = Iter::new(SAMPLE);
    let range_event0 = iter.next().expect("first range event");
    let Range::Text(range0) = &range_event0 else {
        panic!("expected text range, got {range_event0:?}");
    };
    assert_eq!(&SAMPLE[range0.clone()], SAMPLE);
    assert_eq!(iter.next(), None);
}

#[test]
fn empty_signals() {
    const SAMPLE: &str = "Hello, @ world! @";
    let mut iter = Iter::new(SAMPLE);
    let range_event0 = iter.next().expect("first range event");
    let Range::Text(range0) = &range_event0 else {
        panic!("expected text range, got {range_event0:?}");
    };
    assert_eq!(&SAMPLE[range0.clone()], "Hello, ");
    let range_event1 = iter.next().expect("second range event");
    let Range::Signal {
        prompt: name,
        param,
    } = &range_event1
    else {
        panic!("expected signal range, got {range_event1:?}");
    };
    assert!(name.is_empty());
    assert!(param.is_empty());
    let range_event2 = iter.next().expect("third range event");
    let Range::Text(range2) = &range_event2 else {
        panic!("expected text range, got {range_event2:?}");
    };
    assert_eq!(&SAMPLE[range2.clone()], " world! ");
    let range_event3 = iter.next().expect("fourth range event");
    let Range::Signal {
        prompt: name,
        param,
    } = &range_event3
    else {
        panic!("expected signal range, got {range_event3:?}");
    };
    assert!(name.is_empty());
    assert!(param.is_empty());
    assert_eq!(iter.next(), None);
}

#[test]
fn paramless_signals() {
    const SAMPLE: &str = "@first_signal Hello, @second_signal world!";
    let mut iter = Iter::new(SAMPLE);
    let range_event0 = iter.next().expect("first range event");
    let Range::Signal {
        prompt: name,
        param,
    } = &range_event0
    else {
        panic!("expected signal range, got {range_event0:?}");
    };
    assert_eq!(&SAMPLE[name.clone()], "first_signal");
    assert!(param.is_empty());
    let range_event1 = iter.next().expect("second range event");
    let Range::Text(range1) = &range_event1 else {
        panic!("expected text range, got {range_event1:?}");
    };
    assert_eq!(&SAMPLE[range1.clone()], " Hello, ");
    let range_event2 = iter.next().expect("third range event");
    let Range::Signal {
        prompt: name,
        param,
    } = &range_event2
    else {
        panic!("expected signal range, got {range_event2:?}");
    };
    assert_eq!(&SAMPLE[name.clone()], "second_signal");
    assert!(param.is_empty());
    let range_event3 = iter.next().expect("fourth range event");
    let Range::Text(range3) = &range_event3 else {
        panic!("expected text range, got {range_event3:?}");
    };
    assert_eq!(&SAMPLE[range3.clone()], " world!");
    assert_eq!(iter.next(), None);
}

#[test]
fn full_signals() {
    const SAMPLE: &str = "Hello, @first_signal{ 20 84 }@second_signal{ #e13f3f } world!";
    let mut iter = Iter::new(SAMPLE);
    let range_event0 = iter.next().expect("first range event");
    let Range::Text(range0) = &range_event0 else {
        panic!("expected text range, got {range_event0:?}");
    };
    assert_eq!(&SAMPLE[range0.clone()], "Hello, ");
    let range_event1 = iter.next().expect("second range event");
    let Range::Signal {
        prompt: name,
        param,
    } = &range_event1
    else {
        panic!("expected signal range, got {range_event1:?}");
    };
    assert_eq!(&SAMPLE[name.clone()], "first_signal");
    assert_eq!(&SAMPLE[param.clone()], " 20 84 ");
    let range_event2 = iter.next().expect("second range event");
    let Range::Signal {
        prompt: name,
        param,
    } = &range_event2
    else {
        panic!("expected signal range, got {range_event2:?}");
    };
    assert_eq!(&SAMPLE[name.clone()], "second_signal");
    assert_eq!(&SAMPLE[param.clone()], " #e13f3f ");
    let range_event3 = iter.next().expect("fourth range event");
    let Range::Text(range3) = &range_event3 else {
        panic!("expected text range, got {range_event3:?}");
    };
    assert_eq!(&SAMPLE[range3.clone()], " world!");
    assert_eq!(iter.next(), None);
}

#[test]
fn raw_unterminated_param_runs_to_end() {
    const SAMPLE: &str = "@name{ open";
    let mut iter = Iter::new(SAMPLE);
    assert_eq!(iter.next(), Some(Range::Signal { prompt: 1..5, param: 6..11 }));
    assert_eq!(iter.next(), None);
}

#[test]
fn raw_nameless_param_and_other_brackets() {
    const SAMPLE: &str = "@[a]@(b)@<c>x";
    let mut iter = Iter::new(SAMPLE);
    assert_eq!(iter.next(), Some(Range::Signal { prompt: 2..2, param: 2..3 }));
    assert_eq!(iter.next(), Some(Range::Signal { prompt: 6..6, param: 6..7 }));
    assert_eq!(iter.next(), Some(Range::Signal { prompt: 10..10, param: 10..11 }));
    assert_eq!(iter.next(), Some(Range::Text(12..13)));
    assert_eq!(iter.next(), None);
}

#[test]
fn raw_first_closer_wins() {
    const SAMPLE: &str = "@a{x{y}z}";
    let mut iter = Iter::new(SAMPLE);
    assert_eq!(iter.next(), Some(Range::Signal { prompt: 1..2, param: 3..6 }));
    assert_eq!(iter.next(), Some(Range::Text(7..9)));
    assert_eq!(iter.next(), None);
}

#[test]
fn raw_double_introducer_and_empty_brackets() {
    const SAMPLE: &str = "@@a{}";
    let mut iter = Iter::new(SAMPLE);
    assert_eq!(iter.next(), Some(Range::Signal { prompt: 1..1, param: 1..1 }));
    assert_eq!(iter.next(), Some(Range::Signal { prompt: 2..3, param: 4..4 }));
    assert_eq!(iter.next(), None);
}

#[test]
fn raw_empty_text_has_no_items() {
    let mut iter = Iter::new("");
    assert_eq!(iter.next(), None);
    assert_eq!(iter.next(), None);
}

#[test]
fn raw_prompt_stops_at_unicode_space() {
    const SAMPLE: &str = "@caf\u{e9}\u{3000}x";
    let mut iter = Iter::new(SAMPLE);
    let Some(Range::Signal { prompt, param }) = iter.next() else {
        panic!("expected a signal");
    };
    assert_eq!(&SAMPLE[prompt.clone()], "caf\u{e9}");
    assert!(param.is_empty());
    let Some(Range::Text(text)) = iter.next() else {
        panic!("expected text");
    };
    assert_eq!(&SAMPLE[text], "\u{3000}x");
    assert_eq!(iter.next(), None);
    assert_eq!(iter.as_full_str(), SAMPLE);
}
