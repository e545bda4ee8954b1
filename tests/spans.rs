use choco::spans::{Extent, ExtentIter, ExtentKind};

fn spans(text: &str) -> Vec<Extent> {
    let mut iter = ExtentIter::new(text);
    let mut out = Vec::new();
    while let Some(e) = iter.next() {
        out.push(e);
    }
    out
}

#[test]
fn spans_just_text() {
    assert_eq!(spans("Hello, world!"), vec![Extent::text(0..13)]);
}

#[test]
fn spans_cover_the_text() {
    assert_eq!(
        spans("Hello, @ world! @"),
        vec![
            Extent::text(0..7),
            Extent::signal(7..8),
            Extent::text(8..16),
            Extent::signal(16..17),
        ]
    );
    assert_eq!(
        spans("a@b{c}d@e"),
        vec![
            Extent::text(0..1),
            Extent::signal(1..6),
            Extent::text(6..7),
            Extent::signal(7..9),
        ]
    );
    assert_eq!(spans(""), vec![]);
}

#[test]
fn spans_round_trip() {
    for text in ["Hello, @first_signal{ 20 84 }@second_signal{ #e13f3f } world!", "@@x{ é @y<z", "plain", "@"] {
        let mut joined = String::new();
        let mut next = 0;
        for e in spans(text) {
            assert_eq!(e.range.start, next);
            next = e.range.end;
            joined.push_str(e.slice_of(text).slice);
        }
        assert_eq!(next, text.len());
        assert_eq!(joined, text);
    }
}

#[test]
fn spans_kinds() {
    let e = Extent::signal(2..4);
    assert!(e.is_signal());
    assert!(!e.is_text());
    assert_eq!(e.kind, ExtentKind::Signal);
    let t = Extent::text(0..2);
    assert!(t.is_text());
    assert_eq!(t.slice_of("ab@c").slice, "ab");
    assert_eq!(t.slice_of("ab@c").range, 0..2);
}
