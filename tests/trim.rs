use choco::raw::Range;
use choco::trim::Iter;

#[test]
fn no_trim_required() {
    const SAMPLE: &str = "Hello, world!";
    let mut iter = Iter::new(SAMPLE);
    let range_event0 = iter.next().expect("first range event");
    let Range::Text(range0) = &range_event0 else {
        panic!("expected text range, got {range_event0:?}");
    };
    assert_eq!(&SAMPLE[range0.clone()], "Hello, world!");
    assert_eq!(iter.next(), None);
}

#[test]
fn middle_trim() {
    const SAMPLE: &str = "Hello, @oops world!";
    let mut iter = Iter::new(SAMPLE);
    let range_event0 = iter.next().expect("first range event");
    let Range::Text(range0) = &range_event0 else {
        panic!("expected text range, got {range_event0:?}");
    };
    assert_eq!(&SAMPLE[range0.clone()], "Hello,");
    let range_event1 = iter.next().expect("second range event");
    let Range::Signal { .. } = &range_event1 else {
        panic!("expected signal range, got {range_event1:?}");
    };
    let range_event2 = iter.next().expect("first range event");
    let Range::Text(range2) = &range_event2 else {
        panic!("expected text range, got {range_event2:?}");
    };
    assert_eq!(&SAMPLE[range2.clone()], " world!");
    assert_eq!(iter.next(), None);
}

#[test]
fn left_trim() {
    const SAMPLE: &str = "@oops Hello, world!";
    let mut iter = Iter::new(SAMPLE);
    let range_event0 = iter.next().expect("first range event");
    let Range::Signal { .. } = &range_event0 else {
        panic!("expected signal range, got {range_event0:?}");
    };
    let range_event1 = iter.next().expect("second range event");
    let Range::Text(range1) = &range_event1 else {
        panic!("expected text range, got {range_event1:?}");
    };
    assert_eq!(&SAMPLE[range1.clone()], "Hello, world!");
    assert_eq!(iter.next(), None);
}

#[test]
fn trim_drops_blank_text() {
    const SAMPLE: &str = "@a   @b";
    let mut iter = Iter::new(SAMPLE);
    assert_eq!(iter.next(), Some(Range::Signal { prompt: 1..2, param: 2..2 }));
    assert_eq!(iter.next(), Some(Range::Signal { prompt: 6..7, param: 7..7 }));
    assert_eq!(iter.next(), None);
}

#[test]
fn trim_unicode_white_space() {
    const SAMPLE: &str = "@a\u{a0}\u{2003}x y\u{3000}\u{85}";
    let mut iter = Iter::new(SAMPLE);
    assert!(matches!(iter.next(), Some(Range::Signal { .. })));
    let Some(Range::Text(text)) = iter.next() else {
        panic!("expected text");
    };
    assert_eq!(&SAMPLE[text], "x y");
    assert_eq!(iter.next(), None);
    assert_eq!(iter.as_full_str(), SAMPLE);
}

#[test]
fn trim_only_first_text_of_line_on_the_left() {
    const SAMPLE: &str = "@a  x @b  y ";
    let mut iter = Iter::new(SAMPLE);
    assert!(matches!(iter.next(), Some(Range::Signal { .. })));
    assert_eq!(iter.next(), Some(Range::Text(4..5)));
    assert!(matches!(iter.next(), Some(Range::Signal { .. })));
    assert_eq!(iter.next(), Some(Range::Text(8..11)));
    assert_eq!(iter.next(), None);
}

#[test]
fn lines_offset_counts_line_breaks() {
    let mut lines = choco::lines::Iter::new("ab\ncd");
    assert_eq!(lines.offset(), 0);
    assert_eq!(lines.next().expect("first line").as_full_str(), "ab");
    assert_eq!(lines.offset(), 3);
    assert_eq!(lines.next().expect("second line").as_full_str(), "cd");
    assert_eq!(lines.offset(), 6);
    assert!(lines.next().is_none());
    assert_eq!(lines.offset(), 6);
}
