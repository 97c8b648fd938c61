use std::cell::RefCell;
use std::rc::Rc;

use token_processor::token_processor::{HandlerHistory, TagHandler, TagStreamEvent, TokenProcessor};

/// Records the events it sees and answers each with the given tokens.
struct Recorder {
    log: Rc<RefCell<Vec<String>>>,
    answer: Vec<String>,
}

impl TagHandler for Recorder {
    /// The history is a proof-only record of the calls; it is never computed.
    fn history(&self) -> HandlerHistory {
        unreachable!("a handler's history is for proofs only")
    }

    fn handle(&mut self, event: TagStreamEvent) -> Vec<String> {
        let entry = match event {
            TagStreamEvent::Open => "Open".to_string(),
            TagStreamEvent::Data(s) => format!("Data: {}", s),
            TagStreamEvent::Close => "Close".to_string(),
        };
        self.log.borrow_mut().push(entry);
        self.answer.clone()
    }
}

fn recorder(log: &Rc<RefCell<Vec<String>>>) -> Recorder {
    Recorder { log: log.clone(), answer: Vec::new() }
}

fn answering(log: &Rc<RefCell<Vec<String>>>, answer: &[&str]) -> Recorder {
    Recorder { log: log.clone(), answer: answer.iter().map(|s| s.to_string()).collect() }
}

fn log() -> Rc<RefCell<Vec<String>>> {
    Rc::new(RefCell::new(Vec::new()))
}

#[test]
fn processor_passes_plain_text_through() {
    let mut processor: TokenProcessor<Recorder> = TokenProcessor::new();
    assert_eq!(processor.feed("hello"), vec!["hello".to_string()]);
    assert_eq!(processor.feed(""), Vec::<String>::new());
    let events = log();
    processor.on_tag("t", recorder(&events));
    assert_eq!(processor.feed("no tags here"), vec!["no tags here".to_string()]);
    assert!(events.borrow().is_empty());
}

#[test]
fn processor_streams_data_inside_a_tag_across_feeds() {
    let events = log();
    let mut processor = TokenProcessor::new();
    processor.on_tag("think", recorder(&events));
    assert_eq!(processor.feed("<think>"), Vec::<String>::new());
    assert_eq!(processor.feed("abc"), Vec::<String>::new());
    assert_eq!(processor.feed("</think>"), Vec::<String>::new());
    assert_eq!(processor.feed(" after"), vec![" after".to_string()]);
    assert_eq!(events.borrow().join(", "), "Open, Data: abc, Close");
}

#[test]
fn processor_emits_a_stray_closing_tag_as_text() {
    let events = log();
    let mut processor = TokenProcessor::new();
    processor.on_tag("a", recorder(&events));
    assert_eq!(
        processor.feed("x</a>y"),
        vec!["x".to_string(), "</a>".to_string(), "y".to_string()]
    );
    assert_eq!(processor.finish(), Vec::<String>::new());
    assert!(events.borrow().is_empty());
}

#[test]
fn processor_hands_a_mismatched_closing_tag_to_the_open_tag() {
    let a = log();
    let b = log();
    let mut processor = TokenProcessor::new();
    processor.on_tag("a", recorder(&a));
    processor.on_tag("b", recorder(&b));
    assert_eq!(processor.feed("<a>1</b>2</a>"), Vec::<String>::new());
    assert_eq!(
        a.borrow().join(", "),
        "Open, Data: 1, Data: </b>, Data: 2, Close"
    );
    assert!(b.borrow().is_empty());
}

#[test]
fn processor_routes_answers_to_the_enclosing_tag_or_out() {
    let outer = log();
    let inner = log();
    let mut processor = TokenProcessor::new();
    processor.on_tag("outer", answering(&outer, &["O"]));
    processor.on_tag("inner", answering(&inner, &["I"]));
    let out = processor.feed("<outer><inner>x</inner></outer>");
    // The outer handler answers its Open and Close with "O", which goes out;
    // each answer of the inner handler goes to the outer handler as data.
    assert_eq!(out, vec!["O".to_string(), "O".to_string()]);
    assert_eq!(inner.borrow().join(", "), "Open, Data: x, Close");
    assert_eq!(
        outer.borrow().join(", "),
        "Open, Data: I, Data: I, Data: I, Close"
    );
}

#[test]
fn processor_finish_closes_open_tags_innermost_first() {
    let seen = log();
    let mut processor = TokenProcessor::new();
    processor.on_tag("a", recorder(&seen));
    processor.on_tag("b", recorder(&seen));
    assert_eq!(processor.feed("<a><b>x"), Vec::<String>::new());
    assert_eq!(processor.finish(), Vec::<String>::new());
    assert_eq!(seen.borrow().join(", "), "Open, Open, Data: x, Close, Close");
}

#[test]
fn processor_finish_emits_held_back_text_outside_tags() {
    let mut processor: TokenProcessor<Recorder> = TokenProcessor::new();
    processor.on_tag("t", recorder(&log()));
    // "<t" might still become "<t>": it is held back.
    assert_eq!(processor.feed("abc <t"), vec!["abc ".to_string()]);
    assert_eq!(processor.finish(), vec!["<t".to_string()]);
    assert_eq!(processor.finish(), Vec::<String>::new());
}

#[test]
fn processor_replaces_the_handler_of_a_tag_registered_twice() {
    let first = log();
    let second = log();
    let mut processor = TokenProcessor::new();
    processor.on_tag("t", recorder(&first));
    assert!(processor.try_on_tag("t", recorder(&second)).is_ok());
    processor.feed("<t>x</t>");
    assert!(first.borrow().is_empty());
    assert_eq!(second.borrow().join(", "), "Open, Data: x, Close");
}

#[test]
fn processor_reads_a_slash_name_as_a_closing_tag() {
    let seen = log();
    let mut processor = TokenProcessor::new();
    // "</x>" is the opening literal of the tag "/x"; read back, it closes "x".
    processor.on_tag("/x", recorder(&seen));
    assert_eq!(processor.feed("</x>"), vec!["</x>".to_string()]);
    assert!(seen.borrow().is_empty());
}

#[test]
fn processor_handles_multibyte_text() {
    let seen = log();
    let mut processor = TokenProcessor::new();
    processor.on_tag("思", recorder(&seen));
    assert_eq!(processor.feed("前<思>中</思>"), vec!["前".to_string()]);
    assert_eq!(seen.borrow().join(", "), "Open, Data: 中, Close");
}

#[test]
fn processor_streams_text_once_and_in_order() {
    let seen = log();
    let mut processor = TokenProcessor::new();
    processor.on_tag("t", recorder(&seen));
    assert_eq!(processor.feed("<t>"), Vec::<String>::new());
    assert_eq!(processor.feed("d</t>xyz"), vec!["xyz".to_string()]);
    assert_eq!(seen.borrow().join(", "), "Open, Data: d, Close");
    assert_eq!(processor.finish(), Vec::<String>::new());
}

#[test]
fn processor_finish_hands_held_text_to_the_open_tag_once() {
    let seen = log();
    let mut processor = TokenProcessor::new();
    processor.on_tag("test", recorder(&seen));
    assert_eq!(processor.feed("<test>"), Vec::<String>::new());
    assert_eq!(processor.feed("x</te"), Vec::<String>::new());
    assert_eq!(processor.open_tags(), vec!["test".to_string()]);
    assert_eq!(processor.finish(), Vec::<String>::new());
    assert_eq!(seen.borrow().join(", "), "Open, Data: x, Data: </te, Close");
    assert!(processor.open_tags().is_empty());
    assert_eq!(processor.finish(), Vec::<String>::new());
    assert_eq!(seen.borrow().len(), 4);
}

#[test]
fn processor_finds_a_tag_split_across_feeds() {
    let seen = log();
    let mut processor = TokenProcessor::new();
    processor.on_tag("test", recorder(&seen));
    assert_eq!(processor.feed("a<te"), vec!["a".to_string()]);
    assert_eq!(processor.feed("st>hello</test>"), Vec::<String>::new());
    assert_eq!(seen.borrow().join(", "), "Open, Data: hello, Close");
}

#[test]
fn processor_output_does_not_depend_on_where_feeds_split() {
    let text = "a <outer>b <inner>c</inner> d</outer> e < f";
    let whole_log = log();
    let mut whole = TokenProcessor::new();
    whole.on_tag("outer", recorder(&whole_log));
    whole.on_tag("inner", recorder(&whole_log));
    let mut expected = whole.feed(text);
    expected.extend(whole.finish());
    let piece_log = log();
    let mut pieces = TokenProcessor::new();
    pieces.on_tag("outer", recorder(&piece_log));
    pieces.on_tag("inner", recorder(&piece_log));
    let mut got = Vec::new();
    for c in text.chars() {
        got.extend(pieces.feed(&c.to_string()));
    }
    got.extend(pieces.finish());
    assert_eq!(got.concat(), expected.concat());
    assert_eq!(merge_data(&piece_log.borrow()), merge_data(&whole_log.borrow()));
}

/// Joins neighbouring data entries of a log.
fn merge_data(entries: &[String]) -> Vec<String> {
    let mut out: Vec<String> = Vec::new();
    for e in entries {
        if let Some(rest) = e.strip_prefix("Data: ") {
            if let Some(prev) = out.last_mut() {
                if prev.starts_with("Data: ") {
                    prev.push_str(rest);
                    continue;
                }
            }
        }
        out.push(e.clone());
    }
    out
}
