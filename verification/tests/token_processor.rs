use std::cell::RefCell;
use std::rc::Rc;

use token_processor::token_processor::{HandlerHistory, TagHandler, TagStreamEvent, TokenProcessor};

/// A handler built from a closure.
struct Handler(Box<dyn FnMut(TagStreamEvent) -> Vec<String>>);

impl TagHandler for Handler {
    /// The history is a proof-only record of the calls; it is never computed.
    fn history(&self) -> HandlerHistory {
        unreachable!("a handler's history is for proofs only")
    }

    fn handle(&mut self, event: TagStreamEvent) -> Vec<String> {
        (self.0)(event)
    }
}

fn recorder(log: Rc<RefCell<Vec<String>>>) -> Handler {
    Handler(Box::new(move |evt| {
        match evt {
            TagStreamEvent::Open => log.borrow_mut().push("Open".to_string()),
            TagStreamEvent::Data(s) => log.borrow_mut().push(format!("Data: {}", s)),
            TagStreamEvent::Close => log.borrow_mut().push("Close".to_string()),
        }
        Vec::new()
    }))
}

#[test]
fn test_basic_streaming() {
    let mut processor = TokenProcessor::new();
    let collected = Rc::new(RefCell::new(Vec::new()));
    processor.on_tag("test", recorder(collected.clone()));

    let output = processor.feed("<test>hello world</test>");
    assert_eq!(output, Vec::<String>::new());
    assert_eq!(
        collected.borrow().join(", "),
        "Open, Data: hello world, Close"
    );
}

#[test]
fn test_nested_tags() {
    let mut processor = TokenProcessor::new();
    let outer_events = Rc::new(RefCell::new(Vec::new()));
    let inner_events = Rc::new(RefCell::new(Vec::new()));

    processor.on_tag("outer", recorder(outer_events.clone()));
    processor.on_tag("inner", recorder(inner_events.clone()));

    processor.feed("<outer>begin <inner>nested</inner> end</outer>");

    assert_eq!(
        outer_events.borrow().join(", "),
        "Open, Data: begin , Data:  end, Close"
    );
    assert_eq!(
        inner_events.borrow().join(", "),
        "Open, Data: nested, Close"
    );
}
