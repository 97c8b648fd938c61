//! A streaming token processor for text produced chunk by chunk: it finds
//! literal tag pairs such as `<think>`/`</think>` in the stream and reports
//! raw text and tag events as they become certain.
use vstd::prelude::*;

pub mod matching;
pub mod text;

pub mod scanner;
pub mod token_processor;

pub use scanner::{Event, Scanner, ScannerError, Tag};

use scanner::ScannerView;

verus! {

/// A processor that scans each piece of text it is given for a fixed set of tags.
pub struct TokenProcessor {
    scanner: Scanner,
}

impl View for TokenProcessor {
    type V = ScannerView;

    closed spec fn view(&self) -> ScannerView {
        self.scanner@
    }
}

impl TokenProcessor {
    /// The processor's scanner is well formed.
    pub closed spec fn wf(&self) -> bool {
        self.scanner.wf()
    }

    /// A well-formed processor's closing literals are not empty and what it
    /// holds back is the beginning of a literal, as the laws of `scanner` ask.
    pub proof fn lemma_wf_closes(&self)
        requires
            self.wf(),
        ensures
            scanner::closes_nonempty(self@.tags),
            scanner::holds_tag_start(self@),
    {
        self.scanner.lemma_wf_closes();
    }

    /// A processor for `tags` that holds back at most 1024 bytes.
    pub fn new(tags: &[Tag]) -> (res: Result<Self, ScannerError>)
        ensures
            res is Ok <==> matching::automaton_builds(scanner::tag_patterns(scanner::tags_view(tags@))),
            res matches Ok(p) ==> {
                &&& p.wf()
                &&& p@.tags == scanner::tags_view(tags@)
                &&& p@.buffer.len() == 0
                &&& p@.max_buffer == 1024
                &&& p@.pending == 0
            },
            res matches Err(e) ==> e is AhoCorasickBuildError,
    {
        match Scanner::new(tags, 1024) {
            Ok(scanner) => Ok(Self { scanner }),
            Err(e) => Err(e),
        }
    }

    /// Scans the next piece of text, as `Scanner::feed` does.
    pub fn process(&mut self, text: &str) -> (res: Result<Vec<Event>, ScannerError>)
        requires
            old(self).wf(),
        ensures
            final(self).wf(),
            scanner::feed_spec(old(self)@, text@, final(self)@, res),
    {
        self.scanner.feed(text)
    }
}

} // verus!
