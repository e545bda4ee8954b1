use choco::event::Iter;
use choco::graph::from_iter;
use choco::petgraph::graph::NodeIndex;
use choco::read;

#[test]
fn single_bookmark() {
    const SAMPLE: &str = "@bookmark{greet}Hello, World!";
    let (guide, story) = from_iter(Iter::new(SAMPLE));
    assert_eq!(guide.len(), 1);
    assert_eq!(story.node_count(), 1);
    assert_eq!(story.edge_count(), 0);
    let bookmark_index = guide.get("greet").expect("greet");
    let text_range = story[NodeIndex::new(bookmark_index)].clone();
    assert_eq!(&SAMPLE[text_range], "Hello, World!");
}

#[test]
fn double_bookmark() {
    const SAMPLE: &str =
        "@bookmark{greet}Hello, World!\n@bookmark{greet-back}Hello back at you!";
    let (guide, story) = from_iter(Iter::new(SAMPLE));
    assert_eq!(guide.len(), 2);
    assert_eq!(story.node_count(), 2);
    assert_eq!(story.edge_count(), 0);
    let bookmark_index = guide.get("greet").expect("greet");
    let text_range = story[NodeIndex::new(bookmark_index)].clone();
    assert_eq!(&SAMPLE[text_range], "Hello, World!\n");
    let bookmark_index = guide.get("greet-back").expect("greet-back");
    let text_range = story[NodeIndex::new(bookmark_index)].clone();
    assert_eq!(&SAMPLE[text_range], "Hello back at you!");
}

#[test]
fn choices() {
    const SAMPLE: &str = "@bookmark{greet}Hello, World!\n@choice{end}Hi!\n@choice{end}Hello back at you!\n@bookmark{end}End.";
    let (guide, story) = from_iter(Iter::new(SAMPLE));
    assert_eq!(guide.len(), 2);
    assert_eq!(story.node_count(), 2);
    assert_eq!(story.edge_count(), 2);
    let greet_index = NodeIndex::new(guide.get("greet").expect("greet"));
    let text_range = story[greet_index].clone();
    assert_eq!(&SAMPLE[text_range], "Hello, World!\n");
    let end_index = NodeIndex::new(guide.get("end").expect("end"));
    let text_range = story[end_index].clone();
    assert_eq!(&SAMPLE[text_range], "End.");
    let mut edges = story.edges_connecting(greet_index, end_index);
    let hello_back_edge = edges.next().unwrap();
    assert_eq!(
        &SAMPLE[hello_back_edge.weight().clone()],
        "Hello back at you!\n"
    );
    let hi_edge = edges.next().unwrap();
    assert_eq!(&SAMPLE[hi_edge.weight().clone()], "Hi!\n");
}

#[test]
fn read_single_bookmark_exact() {
    let (guide, story) = read(&["@bookmark{greet}Hello, World!"]);
    assert_eq!(guide.len(), 1);
    assert_eq!(guide.get("greet"), Some(0));
    assert_eq!(guide.get("other"), None);
    assert_eq!(guide.entry(0), ("greet", 0));
    assert_eq!(story.node_count(), 1);
    assert_eq!(story[NodeIndex::new(0)], 16..29);
    assert_eq!(story.edge_count(), 0);
}

#[test]
fn read_choices_exact() {
    const SAMPLE: &str = "@bookmark{greet}Hello, World!\n@choice{end}Hi!\n@choice{end}Hello back at you!\n@bookmark{end}End.";
    let (guide, story) = read(&[SAMPLE]);
    assert_eq!(guide.get("greet"), Some(0));
    assert_eq!(guide.get("end"), Some(1));
    assert_eq!(story[NodeIndex::new(0)], 16..30);
    assert_eq!(story[NodeIndex::new(1)], 91..95);
    let edges: Vec<_> = story.raw_edges().iter().map(|e| (e.source().index(), e.target().index(), e.weight.clone())).collect();
    assert_eq!(edges, vec![(0, 1, 42..46), (0, 1, 58..77)]);
}

#[test]
fn read_forward_reference_and_unknown_target() {
    const SAMPLE: &str = "@bookmark{a}A\n@choice{b}go\n@choice{nowhere}lost\n@bookmark{b}B";
    let (guide, story) = read(&[SAMPLE]);
    assert_eq!(guide.len(), 2);
    assert_eq!(story.edge_count(), 1);
    let edge = &story.raw_edges()[0];
    assert_eq!((edge.source().index(), edge.target().index()), (0, 1));
    assert_eq!(&SAMPLE[edge.weight.clone()], "go\n");
}

#[test]
fn read_duplicate_bookmark_keeps_first() {
    const SAMPLE: &str = "@bookmark{a}one\n@bookmark{b}two\n@bookmark{a}three\n@choice{b}x";
    let (guide, story) = read(&[SAMPLE]);
    assert_eq!(guide.len(), 2);
    assert_eq!(story.node_count(), 2);
    assert_eq!(&SAMPLE[story[NodeIndex::new(guide.get("a").unwrap())].clone()], "one\n");
    let edge = &story.raw_edges()[0];
    assert_eq!((edge.source().index(), edge.target().index()), (1, 1));
}

#[test]
fn read_choice_before_any_bookmark() {
    const SAMPLE: &str = "@choice{a}pre\n@bookmark{a}A";
    let (guide, story) = read(&[SAMPLE]);
    assert_eq!(guide.len(), 1);
    assert_eq!(story.edge_count(), 1);
    let edge = &story.raw_edges()[0];
    assert_eq!((edge.source().index(), edge.target().index()), (0, 0));
    assert_eq!(&SAMPLE[edge.weight.clone()], "pre\n");
}

#[test]
fn read_empty_text() {
    let (guide, story) = read(&[""]);
    assert_eq!(guide.len(), 0);
    assert_eq!(story.node_count(), 0);
    assert_eq!(story.edge_count(), 0);
}

#[test]
fn read_several_chunks() {
    const FIRST: &str = "@bookmark{a}one\n@choice{b}go";
    const SECOND: &str = "@bookmark{b}two";
    let (guide, story) = read(&[FIRST, SECOND]);
    assert_eq!(guide.len(), 2);
    assert_eq!(guide.get("a"), Some(0));
    assert_eq!(guide.get("b"), Some(1));
    // each chunk keeps ranges of its own
    assert_eq!(&FIRST[story[NodeIndex::new(0)].clone()], "one\n");
    assert_eq!(&SECOND[story[NodeIndex::new(1)].clone()], "two");
    let edge = &story.raw_edges()[0];
    assert_eq!((edge.source().index(), edge.target().index()), (0, 1));
    assert_eq!(edge.weight, 26..0);
}
