use token_processor::{Event, Scanner, Tag};

// Basic unit tests for the `token_processor` crate.
//
// The goal is to ensure that the public API behaves as documented in the
// library-level examples.

#[test]
fn scanner_emits_expected_events() {
    // Replicates the example from the crate documentation.
    let tag = Tag::new("<think>");
    let mut scanner = Scanner::new(&[tag.clone()], 128).expect("scanner should build");

    let text = "Text before tags <think>text inside of tags</think> then text after tags.";
    let events = scanner.feed(text).expect("scanner feed must succeed");

    assert_eq!(
        events,
        vec![
            Event::Raw("Text before tags ".into()),
            Event::Open(tag.clone()),
            Event::Raw("text inside of tags".into()),
            Event::Close(tag.clone()),
            Event::Raw(" then text after tags.".into()),
        ]
    );

    // After finishing the stream, the scanner should return no further events.
    assert!(scanner.finish().is_empty());
}
