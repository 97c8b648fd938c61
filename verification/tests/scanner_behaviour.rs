use token_processor::{Event, Scanner, ScannerError, Tag, TokenProcessor};

fn raw(s: &str) -> Event {
    Event::Raw(s.to_string())
}

fn text_of(events: &[Event]) -> String {
    let mut out = String::new();
    for e in events {
        match e {
            Event::Raw(s) => out.push_str(s),
            Event::Open(t) => out.push_str(&t.to_string()),
            Event::Close(t) => {
                // The closing literal is `</name>`; the opening literal is `<name>`.
                let open = t.to_string();
                let name = open.trim_start_matches('<').trim_end_matches('>');
                out.push_str(&format!("</{}>", name));
            }
        }
    }
    out
}

#[test]
fn tag_new_trims_every_angle_bracket() {
    let tag = Tag::new("<<tool>>");
    assert_eq!(tag.to_string(), "<<tool>>");
    let mut scanner = Scanner::new(&[tag.clone()], 64).unwrap();
    let events = scanner.feed("a</tool>b").unwrap();
    assert_eq!(events, vec![raw("a"), Event::Close(tag.clone()), raw("b")]);
}

#[test]
fn scanner_holds_back_a_partial_tag() {
    let tag = Tag::new("<think>");
    let mut scanner = Scanner::new(&[tag.clone()], 128).unwrap();
    // Text before the partial tag goes out at once; "<thi" is held back.
    assert_eq!(scanner.feed("hello <thi").unwrap(), vec![raw("hello ")]);
    let events = scanner.feed("nk>inside</think> out").unwrap();
    assert_eq!(
        events,
        vec![
            Event::Open(tag.clone()),
            raw("inside"),
            Event::Close(tag.clone()),
            raw(" out"),
        ]
    );
    assert!(scanner.finish().is_empty());
}

#[test]
fn scanner_passes_chunks_through_inside_a_tag() {
    let tag = Tag::new("<think>");
    let mut scanner = Scanner::new(&[tag.clone()], 128).unwrap();
    assert_eq!(scanner.feed("<think>").unwrap(), vec![Event::Open(tag.clone())]);
    assert_eq!(scanner.feed("abc").unwrap(), vec![raw("abc")]);
    // An empty chunk gives no event, inside a tag as outside.
    assert_eq!(scanner.feed("").unwrap(), Vec::<Event>::new());
    assert_eq!(scanner.feed("</think>").unwrap(), vec![Event::Close(tag.clone())]);
    // Outside any tag an empty chunk gives nothing.
    assert_eq!(scanner.feed("").unwrap(), Vec::<Event>::new());
}

#[test]
fn scanner_overflows_on_a_long_chunk_inside_a_tag() {
    let tag = Tag::new("<t>");
    let mut scanner = Scanner::new(&[tag.clone()], 4).unwrap();
    assert_eq!(scanner.feed("<t>").unwrap(), vec![Event::Open(tag.clone())]);
    match scanner.feed("abcde") {
        Err(ScannerError::BufferOverflow(n)) => assert_eq!(n, 4),
        other => panic!("unexpected result: {:?}", other),
    }
}

#[test]
fn scanner_counts_a_chunk_without_open_angle_alone_inside_a_tag() {
    let tag = Tag::new("<think>");
    let mut scanner = Scanner::new(&[tag.clone()], 8).unwrap();
    assert_eq!(scanner.feed("<think>").unwrap(), vec![Event::Open(tag.clone())]);
    assert_eq!(scanner.feed("<thi").unwrap(), Vec::<Event>::new());
    // Inside the tag, "abcde" counts five bytes; the held "<thi" comes first.
    assert_eq!(scanner.feed("abcde").unwrap(), vec![raw("<thiabcde")]);
    assert!(scanner.finish().is_empty());
}

#[test]
fn scanner_overflows_on_a_long_plain_chunk() {
    let mut scanner = Scanner::new(&[Tag::new("<t>")], 4).unwrap();
    match scanner.feed("abcdef") {
        Err(ScannerError::BufferOverflow(n)) => assert_eq!(n, 4),
        other => panic!("unexpected result: {:?}", other),
    }
    // Nothing was kept.
    assert!(scanner.finish().is_empty());
}

#[test]
fn scanner_overflow_refuses_the_chunk() {
    let tag = Tag::new("<tag>");
    let mut scanner = Scanner::new(&[tag.clone()], 4).unwrap();
    assert_eq!(scanner.feed("ab<t").unwrap(), vec![raw("ab")]);
    // "<t" is held back; with "agx" it would be five bytes.
    match scanner.feed("agx") {
        Err(ScannerError::BufferOverflow(n)) => assert_eq!(n, 4),
        other => panic!("unexpected result: {:?}", other),
    }
    // The refused chunk left the scanner as it was.
    assert_eq!(scanner.finish(), vec![raw("<t")]);
}

#[test]
fn scanner_emits_everything_fed_by_the_end() {
    let tag = Tag::new("<think>");
    let mut scanner = Scanner::new(&[tag.clone()], 256).unwrap();
    let chunks = ["Before <th", "ink>in", "side</thi", "nk> after <not a tag"];
    let mut all = Vec::new();
    for c in chunks.iter() {
        all.extend(scanner.feed(c).unwrap());
    }
    all.extend(scanner.finish());
    assert_eq!(text_of(&all), chunks.concat());
}

#[test]
fn scanner_keeps_text_in_order() {
    let tag = Tag::new("<t>");
    let mut scanner = Scanner::new(&[tag.clone()], 64).unwrap();
    assert_eq!(scanner.feed("<t>").unwrap(), vec![Event::Open(tag.clone())]);
    // "<" could start "</t>", so only "x" goes out.
    assert_eq!(scanner.feed("x<").unwrap(), vec![raw("x")]);
    // "<yz" is no tag: it comes out after "x", in order.
    assert_eq!(scanner.feed("yz").unwrap(), vec![raw("<yz")]);
    assert!(scanner.finish().is_empty());
}

#[test]
fn scanner_finds_a_closing_tag_split_across_chunks() {
    let tag = Tag::new("<think>");
    let mut scanner = Scanner::new(&[tag.clone()], 128).unwrap();
    assert_eq!(scanner.feed("<think>").unwrap(), vec![Event::Open(tag.clone())]);
    assert_eq!(scanner.feed("abc</thi").unwrap(), vec![raw("abc")]);
    assert_eq!(scanner.feed("nk>").unwrap(), vec![Event::Close(tag.clone())]);
    assert!(scanner.finish().is_empty());
}

#[test]
fn scanner_events_do_not_depend_on_where_chunks_split() {
    let tags = [Tag::new("<think>"), Tag::new("<tool>")];
    let text = "a <think>b < c</think><tool>d</tool> e <x";
    let mut whole = Scanner::new(&tags, 256).unwrap();
    let mut expected = whole.feed(text).unwrap();
    expected.extend(whole.finish());
    let mut pieces = Scanner::new(&tags, 256).unwrap();
    let mut got = Vec::new();
    for c in text.chars() {
        got.extend(pieces.feed(&c.to_string()).unwrap());
    }
    got.extend(pieces.finish());
    assert_eq!(merge(&got), merge(&expected));
    assert_eq!(text_of(&got), text);
}

/// Joins neighbouring raw events.
fn merge(events: &[Event]) -> Vec<Event> {
    let mut out: Vec<Event> = Vec::new();
    for e in events {
        match (out.last_mut(), e) {
            (Some(Event::Raw(prev)), Event::Raw(s)) => prev.push_str(s),
            _ => out.push(e.clone()),
        }
    }
    out
}

#[test]
fn scanner_never_searches_for_an_empty_opening_literal() {
    let tag = Tag::new("");
    let mut scanner = Scanner::new(&[tag.clone()], 64).unwrap();
    assert_eq!(scanner.feed("").unwrap(), Vec::<Event>::new());
    assert_eq!(scanner.feed("abc").unwrap(), vec![raw("abc")]);
    assert_eq!(
        scanner.feed("é</>b").unwrap(),
        vec![raw("é"), Event::Close(tag.clone()), raw("b")]
    );
}

#[test]
fn scanner_handles_multibyte_text() {
    let tag = Tag::new("<思>");
    let mut scanner = Scanner::new(&[tag.clone()], 128).unwrap();
    let events = scanner.feed("前<思>中</思>後").unwrap();
    assert_eq!(
        events,
        vec![
            raw("前"),
            Event::Open(tag.clone()),
            raw("中"),
            Event::Close(tag.clone()),
            raw("後"),
        ]
    );
}

#[test]
fn scanner_prefers_the_tag_given_first() {
    let short = Tag::new("<x");
    let long = Tag::new("<xy>");
    let mut scanner = Scanner::new(&[short.clone(), long.clone()], 64).unwrap();
    // Both "<x" and "<xy>" start at 0; the first pattern wins.
    assert_eq!(
        scanner.feed("<xy>").unwrap(),
        vec![Event::Open(short.clone()), raw("y>")]
    );
    assert!(scanner.finish().is_empty());
}

#[test]
fn scanner_does_not_count_below_zero_open_tags() {
    let tag = Tag::new("<t>");
    let mut scanner = Scanner::new(&[tag.clone()], 64).unwrap();
    assert_eq!(
        scanner.feed("a</t>b").unwrap(),
        vec![raw("a"), Event::Close(tag.clone()), raw("b")]
    );
    // No tag is open: plain text comes out at once.
    assert_eq!(scanner.feed("abc").unwrap(), vec![raw("abc")]);
}

#[test]
fn scanner_reset_drops_held_back_text() {
    let mut scanner = Scanner::new(&[Tag::new("<t>")], 64).unwrap();
    assert_eq!(scanner.feed("a<").unwrap(), vec![raw("a")]);
    scanner.reset_buffer();
    assert!(scanner.finish().is_empty());
}

#[test]
fn processor_scans_each_piece() {
    let tag = Tag::new("<think>");
    let mut processor = TokenProcessor::new(&[tag.clone()]).unwrap();
    assert_eq!(
        processor.process("a<think>b").unwrap(),
        vec![raw("a"), Event::Open(tag.clone()), raw("b")]
    );
    assert_eq!(processor.process("c</think>").unwrap(), vec![raw("c"), Event::Close(tag.clone())]);
}
