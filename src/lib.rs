//! Parsing of a small signal-annotated markup for branching narrative text.
//!
//! Every signal starts with `@`. A signal may hold
//! - just a prompt (`@wave`),
//! - just a parameter (`@{ My important param }`),
//! - both a prompt and a parameter (`@bookmark{intro}`),
//! - or neither (`Pay attention! @`).
//!
//! Three prompts have a meaning here: `bookmark` and `choice` build a graph
//! of narrative nodes joined by choices (see [`graph`]), and `style` styles
//! the parameter that follows it (see [`style`]). Other prompts are handed on
//! as they are.
//!
//! The pipeline, stage by stage: [`raw`] scans one line into text and signal
//! spans, [`trim`] removes white space around text, [`lines`] splits a text
//! into lines, [`event`] composes the events of a whole text at absolute byte
//! offsets, [`style`] folds style signals into styled text, and [`graph`]
//! reads bookmarks and choices into a [`Guide`] and a [`Story`]. [`spans`]
//! gives the extent of each scanner item, and [`bare`] is a plainer scanner
//! whose signals are bare prompts.
pub mod text;
pub mod raw;
pub mod spans;
pub mod bare;
pub mod trim;
pub mod lines;
pub mod event;
pub mod style;
pub mod story;
pub mod graph;

pub use petgraph;

pub use text::StrRange;
pub use event::Signal;
pub use graph::{read, Guide};
pub use story::Story;
pub use style::{event_iter, Event, EventIter, Style};
