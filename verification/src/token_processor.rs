//! A processor that routes the text inside registered tags to handlers, as
//! the text streams in token by token.
use vstd::prelude::*;
use vstd::string::StringSliceAdditionalSpecFns;
use vstd::utf8::*;

use aho_corasick::BuildError;

use crate::matching::{self, build_leftmost_first};
use crate::scanner;
use crate::text::{self, byte_range, starts_with_str};

verus! {

/// A streaming-style callback sees one of these three events.
pub enum TagStreamEvent {
    /// saw `<tag>`
    Open,
    /// saw some text inside the tag
    Data(String),
    /// saw `</tag>`
    Close,
}

/// What a `TagStreamEvent` holds.
pub enum StreamEventView {
    Open,
    Data(Seq<char>),
    Close,
}

impl View for TagStreamEvent {
    type V = StreamEventView;

    open spec fn view(&self) -> StreamEventView {
        match self {
            TagStreamEvent::Open => StreamEventView::Open,
            TagStreamEvent::Data(s) => StreamEventView::Data(s@),
            TagStreamEvent::Close => StreamEventView::Close,
        }
    }
}

/// The events a handler was given, each with the tokens it answered.
pub type HandlerHistory = Seq<(StreamEventView, Seq<Seq<char>>)>;

/// The handler registered for a tag: it sees the tag's events as they stream
/// by and may answer with tokens.
pub trait TagHandler {
    /// The events this handler has been given, each with its answer, in order.
    spec fn history(&self) -> HandlerHistory;

    /// Handles one event; the event and the answer join the history.
    fn handle(&mut self, event: TagStreamEvent) -> (out: Vec<String>)
        ensures
            final(self).history() == old(self).history().push((event@, out.deep_view())),
    ;
}

/// Represents an active tag being processed.
struct Frame {
    name: String,
}

/// Intermediate representation of events found in the buffer.
enum Event {
    Text(String),
    OpenTag(String),
    CloseTag(String),
}

/// What an event found in the buffer holds.
pub enum ScanEvent {
    Text(Seq<char>),
    OpenTag(Seq<char>),
    CloseTag(Seq<char>),
}

impl View for Event {
    type V = ScanEvent;

    closed spec fn view(&self) -> ScanEvent {
        match self {
            Event::Text(s) => ScanEvent::Text(s@),
            Event::OpenTag(s) => ScanEvent::OpenTag(s@),
            Event::CloseTag(s) => ScanEvent::CloseTag(s@),
        }
    }
}

/// Where the tokens a handler answers with go.
pub enum Route {
    /// to the caller of `feed` or `finish`
    Output,
    /// each as `Data` to the handler of the enclosing tag, whose answer is dropped
    Parent(Seq<char>),
    /// nowhere
    Discard,
}

/// One step of dispatching: text handed to the caller, or a handler call.
pub enum Step {
    Emit(Seq<char>),
    Call(Seq<char>, StreamEventView, Route),
}

/// A call of the handler registered for a tag: the tag, the event it was
/// given and the tokens it answered with.
pub type HandlerCall = (Seq<char>, StreamEventView, Seq<Seq<char>>);

/// What a `TokenProcessor` holds, apart from its handlers.
#[verifier::ext_equal]
pub struct ProcessorView {
    /// the registered tag names, in the order of registration
    pub names: Seq<Seq<char>>,
    /// the names of the open tags, outermost first
    pub stack: Seq<Seq<char>>,
    /// the text held back
    pub buffer: Seq<char>,
    /// the literals searched for
    pub markers: Seq<Seq<char>>,
    /// for each literal, its tag name and whether it opens the tag
    pub patterns: Seq<(Seq<char>, bool)>,
    /// every handler call made so far
    pub calls: Seq<HandlerCall>,
}

/// `<name>`
pub open spec fn open_marker(name: Seq<char>) -> Seq<char> {
    seq!['<'] + name + seq!['>']
}

/// `</name>`
pub open spec fn close_marker(name: Seq<char>) -> Seq<char> {
    seq!['<', '/'] + name + seq!['>']
}

/// The literal of a pattern.
pub open spec fn marker_of(p: (Seq<char>, bool)) -> Seq<char> {
    if p.1 {
        open_marker(p.0)
    } else {
        close_marker(p.0)
    }
}

/// A literal that starts with `</`.
pub open spec fn is_close_marker(m: Seq<char>) -> bool {
    m.len() >= 2 && m[0] == '<' && m[1] == '/'
}

/// A literal read back as a pattern: `</name>` closes `name`, `<name>` opens it.
pub open spec fn parse_marker(m: Seq<char>) -> (Seq<char>, bool) {
    if is_close_marker(m) {
        (m.subrange(2, m.len() - 1), false)
    } else {
        (m.subrange(1, m.len() - 1), true)
    }
}

/// A literal in angle brackets, long enough to be read back.
pub open spec fn well_formed_marker(m: Seq<char>) -> bool {
    &&& m.len() >= 2
    &&& m[0] == '<'
    &&& m.last() == '>'
    &&& is_close_marker(m) ==> m.len() >= 3
}

/// The literals after registering `tag`: its opening and closing literal,
/// then the literal of each earlier pattern not already there.
pub open spec fn rebuilt_markers(tag: Seq<char>, patterns: Seq<(Seq<char>, bool)>) -> Seq<Seq<char>>
    decreases patterns.len(),
{
    if patterns.len() == 0 {
        seq![open_marker(tag), close_marker(tag)]
    } else {
        let acc = rebuilt_markers(tag, patterns.drop_last());
        let m = marker_of(patterns.last());
        if acc.contains(m) {
            acc
        } else {
            acc.push(m)
        }
    }
}

/// The patterns read back from the literals.
pub open spec fn parsed_patterns(markers: Seq<Seq<char>>) -> Seq<(Seq<char>, bool)> {
    markers.map_values(|m: Seq<char>| parse_marker(m))
}

/// The registered names after registering `tag`.
pub open spec fn registered(names: Seq<Seq<char>>, tag: Seq<char>) -> Seq<Seq<char>> {
    if names.contains(tag) {
        names
    } else {
        names.push(tag)
    }
}

/// The processor after registering `tag`.
pub open spec fn after_registering(p: ProcessorView, tag: Seq<char>) -> ProcessorView {
    let markers = rebuilt_markers(tag, p.patterns);
    ProcessorView {
        names: registered(p.names, tag),
        stack: p.stack,
        buffer: p.buffer,
        markers: markers,
        patterns: parsed_patterns(markers),
        calls: p.calls,
    }
}

/// Where a handler called on the innermost of the open tags `stack` sends
/// its tokens: to the enclosing tag's handler when there is one, else out.
pub open spec fn parent_route(stack: Seq<Seq<char>>) -> Route {
    if stack.len() > 1 {
        Route::Parent(stack[stack.len() - 2])
    } else {
        Route::Output
    }
}

/// How one event found in the buffer is dispatched, given the open tags:
/// the step it makes and the open tags after it.
pub open spec fn dispatch(stack: Seq<Seq<char>>, e: ScanEvent) -> (Step, Seq<Seq<char>>) {
    match e {
        ScanEvent::Text(t) => if stack.len() > 0 {
            (Step::Call(stack.last(), StreamEventView::Data(t), parent_route(stack)), stack)
        } else {
            (Step::Emit(t), stack)
        },
        ScanEvent::OpenTag(n) => (
            Step::Call(n, StreamEventView::Open, parent_route(stack.push(n))),
            stack.push(n),
        ),
        ScanEvent::CloseTag(n) => if stack.len() > 0 {
            if stack.last() == n {
                (Step::Call(n, StreamEventView::Close, parent_route(stack)), stack.drop_last())
            } else {
                // A closing tag that does not match the innermost open tag is text
                // for the innermost tag's handler.
                (Step::Call(stack.last(), StreamEventView::Data(close_marker(n)), Route::Discard), stack)
            }
        } else {
            (Step::Emit(close_marker(n)), stack)
        },
    }
}

/// Registering `tag` searches for `<tag>` and `</tag>` as well as every
/// literal searched for before, and for nothing else.
pub proof fn lemma_registering_markers(p: ProcessorView, tag: Seq<char>)
    requires
        processor_wf(p),
    ensures
        after_registering(p, tag).markers.contains(seq!['<'] + tag + seq!['>']),
        after_registering(p, tag).markers.contains(seq!['<', '/'] + tag + seq!['>']),
        forall|j: int| 0 <= j < p.markers.len() ==> after_registering(p, tag).markers.contains(#[trigger] p.markers[j]),
        forall|i: int|
            0 <= i < after_registering(p, tag).markers.len() ==> (#[trigger] after_registering(
                p,
                tag,
            ).markers[i] == seq!['<'] + tag + seq!['>'] || after_registering(p, tag).markers[i]
                == seq!['<', '/'] + tag + seq!['>'] || p.markers.contains(
                after_registering(p, tag).markers[i],
            )),
        after_registering(p, tag).names.contains(tag),
{
    let k = p.markers.len() as int;
    assert(parsed_patterns(p.markers).take(k) =~= p.patterns);
    lemma_rebuilt_markers(tag, p.markers, k);
    let r = rebuilt_markers(tag, p.patterns);
    assert(r[0] == open_marker(tag));
    assert(r[1] == close_marker(tag));
    if !p.names.contains(tag) {
        assert(p.names.push(tag)[p.names.len() as int] == tag);
    }
}

/// Where each event found in the buffer goes, given the open tags `stack`
/// (outermost first): text outside any tag goes out; text inside a tag is
/// data for the innermost open tag's handler; an opening tag opens it and
/// calls its handler; a closing tag of the innermost open tag closes it and
/// calls its handler; another closing tag is data for the innermost open
/// tag's handler, whose answer is dropped, or goes out as text when no tag
/// is open. A handler's answer goes out where its tag is the outermost one
/// open, else as data to the handler of the tag directly enclosing it.
pub proof fn lemma_dispatch_routes(stack: Seq<Seq<char>>, e: ScanEvent)
    ensures
        e matches ScanEvent::Text(t) ==> dispatch(stack, e) == if stack.len() == 0 {
            (Step::Emit(t), stack)
        } else if stack.len() == 1 {
            (Step::Call(stack[0], StreamEventView::Data(t), Route::Output), stack)
        } else {
            (
                Step::Call(
                    stack[stack.len() - 1],
                    StreamEventView::Data(t),
                    Route::Parent(stack[stack.len() - 2]),
                ),
                stack,
            )
        },
        e matches ScanEvent::OpenTag(n) ==> dispatch(stack, e) == if stack.len() == 0 {
            (Step::Call(n, StreamEventView::Open, Route::Output), seq![n])
        } else {
            (
                Step::Call(n, StreamEventView::Open, Route::Parent(stack[stack.len() - 1])),
                stack + seq![n],
            )
        },
        e matches ScanEvent::CloseTag(n) ==> dispatch(stack, e) == if stack.len() == 0 {
            (Step::Emit(seq!['<', '/'] + n + seq!['>']), stack)
        } else if stack[stack.len() - 1] != n {
            (
                Step::Call(
                    stack[stack.len() - 1],
                    StreamEventView::Data(seq!['<', '/'] + n + seq!['>']),
                    Route::Discard,
                ),
                stack,
            )
        } else if stack.len() == 1 {
            (Step::Call(n, StreamEventView::Close, Route::Output), Seq::<Seq<char>>::empty())
        } else {
            (
                Step::Call(n, StreamEventView::Close, Route::Parent(stack[stack.len() - 2])),
                stack.subrange(0, stack.len() - 1),
            )
        },
{
    match e {
        ScanEvent::OpenTag(n) => {
            if stack.len() == 0 {
                assert(stack.push(n) =~= seq![n]);
            } else {
                assert(stack.push(n) =~= stack + seq![n]);
                assert(stack.push(n)[stack.push(n).len() - 2] == stack[stack.len() - 1]);
            }
        },
        ScanEvent::CloseTag(n) => {
            if stack.len() == 1 && stack[0] == n {
                assert(stack.drop_last() =~= Seq::<Seq<char>>::empty());
            }
        },
        _ => {},
    }
}

/// The steps for a sequence of events, and the open tags after them.
pub open spec fn plan(stack: Seq<Seq<char>>, events: Seq<ScanEvent>) -> (Seq<Step>, Seq<Seq<char>>)
    decreases events.len(),
{
    if events.len() == 0 {
        (seq![], stack)
    } else {
        let prev = plan(stack, events.drop_last());
        let next = dispatch(prev.1, events.last());
        (prev.0.push(next.0), next.1)
    }
}

/// The calls a step made, each with its handler's answer, fit the step: one
/// call of the step's handler with the step's event; then, where its answer
/// goes to the enclosing tag's handler, one call of that handler per token
/// of the answer, in order, with the token as data.
pub open spec fn step_fits(s: Step, blk: Seq<HandlerCall>) -> bool {
    match s {
        Step::Emit(_) => blk.len() == 0,
        Step::Call(n, ev, route) => {
            &&& blk.len() >= 1
            &&& blk[0].0 == n
            &&& blk[0].1 == ev
            &&& match route {
                Route::Parent(pn) => {
                    &&& blk.len() == 1 + blk[0].2.len()
                    &&& forall|j: int|
                        0 <= j < blk[0].2.len() ==> (#[trigger] blk[1 + j]).0 == pn && blk[1
                            + j].1 == StreamEventView::Data(blk[0].2[j])
                },
                _ => blk.len() == 1,
            }
        },
    }
}

/// The tokens a step hands out, given the calls it made: its text, or what
/// its handler answered where that answer goes out.
pub open spec fn step_output(s: Step, blk: Seq<HandlerCall>) -> Seq<Seq<char>> {
    match s {
        Step::Emit(t) => seq![t],
        Step::Call(_, _, route) => match route {
            Route::Output => blk[0].2,
            _ => seq![],
        },
    }
}

/// The calls of each step fit the step.
pub open spec fn fits(steps: Seq<Step>, blocks: Seq<Seq<HandlerCall>>) -> bool {
    &&& blocks.len() == steps.len()
    &&& forall|i: int| 0 <= i < steps.len() ==> step_fits(#[trigger] steps[i], blocks[i])
}

/// The tokens handed out by the steps, given the calls each made.
pub open spec fn assemble(steps: Seq<Step>, blocks: Seq<Seq<HandlerCall>>) -> Seq<Seq<char>>
    decreases steps.len(),
{
    if steps.len() == 0 {
        seq![]
    } else {
        assemble(steps.drop_last(), blocks.drop_last()) + step_output(steps.last(), blocks.last())
    }
}

/// The calls of all the steps, one step after another.
pub open spec fn flatten(blocks: Seq<Seq<HandlerCall>>) -> Seq<HandlerCall>
    decreases blocks.len(),
{
    if blocks.len() == 0 {
        seq![]
    } else {
        flatten(blocks.drop_last()) + blocks.last()
    }
}

/// The events for the matches `m` in the bytes `h`: before each match, the
/// text since the previous one (when there is any), then the tag event of
/// the match's pattern.
pub open spec fn scan_events(patterns: Seq<(Seq<char>, bool)>, h: Seq<u8>, m: Seq<(int, int, int)>) -> Seq<
    ScanEvent,
>
    decreases m.len(),
{
    if m.len() == 0 {
        seq![]
    } else {
        let prev = m.drop_last();
        let from = matching::end_of_matches(prev);
        let start = m.last().0;
        let p = patterns[m.last().2];
        scan_events(patterns, h, prev) + (if start > from {
            seq![ScanEvent::Text(decode_utf8(h.subrange(from, start)))]
        } else {
            seq![]
        }) + seq![
            if p.1 {
                ScanEvent::OpenTag(p.0)
            } else {
                ScanEvent::CloseTag(p.0)
            },
        ]
    }
}

/// The scan of `feed`: the events found in the text held back followed by
/// the text fed (those of the settled matches, then the text up to where a
/// literal could still be completed by more text), and the text held back
/// from there on.
pub open spec fn feed_scan(p: ProcessorView, raw: Seq<char>) -> (Seq<ScanEvent>, Seq<char>) {
    let h = encode_utf8(p.buffer + raw);
    let pats = matching::encoded_patterns(p.markers);
    let m = matching::settled_matches(pats, h);
    let end = matching::end_of_matches(m);
    let hold = matching::held_from(pats, h);
    (
        scan_events(p.patterns, h, m) + if hold > end {
            seq![ScanEvent::Text(decode_utf8(h.subrange(end, hold)))]
        } else {
            seq![]
        },
        decode_utf8(h.subrange(hold, h.len() as int)),
    )
}

/// What `feed` does: the processor it leaves and the tokens it gives back.
/// The events found are dispatched in order; the calls made are recorded
/// with the handlers' answers, and the tokens given back are assembled from
/// those answers.
pub open spec fn feed_spec(
    p: ProcessorView,
    raw: Seq<char>,
    after: ProcessorView,
    out: Seq<Seq<char>>,
) -> bool {
    let scanned = feed_scan(p, raw);
    let planned = plan(p.stack, scanned.0);
    &&& after.names == p.names
    &&& after.markers == p.markers
    &&& after.patterns == p.patterns
    &&& after.stack == planned.1
    &&& after.buffer == scanned.1
    &&& exists|blocks: Seq<Seq<HandlerCall>>|
        fits(planned.0, blocks) && out == assemble(planned.0, blocks) && after.calls == p.calls
            + flatten(blocks)
}

/// Every tag that an event opens is registered.
pub open spec fn opens_registered(events: Seq<ScanEvent>, names: Seq<Seq<char>>) -> bool {
    forall|i: int|
        0 <= i < events.len() ==> (#[trigger] events[i] matches ScanEvent::OpenTag(n)
            ==> names.contains(n))
}

/// The events found for matches of patterns whose opened tags are
/// registered open only registered tags.
pub proof fn lemma_scan_events_registered(
    patterns: Seq<(Seq<char>, bool)>,
    names: Seq<Seq<char>>,
    h: Seq<u8>,
    m: Seq<(int, int, int)>,
)
    requires
        forall|i: int|
            0 <= i < patterns.len() && (#[trigger] patterns[i]).1 ==> names.contains(
                patterns[i].0,
            ),
        forall|k: int| 0 <= k < m.len() ==> 0 <= (#[trigger] m[k]).2 < patterns.len(),
    ensures
        opens_registered(scan_events(patterns, h, m), names),
    decreases m.len(),
{
    if m.len() > 0 {
        lemma_scan_events_registered(patterns, names, h, m.drop_last());
        let ev = scan_events(patterns, h, m);
        let prev = scan_events(patterns, h, m.drop_last());
        assert(m.last() == m[m.len() - 1]);
        assert forall|i: int|
            0 <= i < ev.len() implies (#[trigger] ev[i] matches ScanEvent::OpenTag(n)
            ==> names.contains(n)) by {
            if i < prev.len() {
                assert(ev[i] == prev[i]);
            }
        }
    }
}

/// The steps of `finish`: the held-back text goes to the innermost open
/// tag's handler, or out when no tag is open; then every open tag is closed,
/// innermost first.
pub open spec fn finish_steps(p: ProcessorView) -> Seq<Step> {
    (if p.buffer.len() > 0 {
        if p.stack.len() > 0 {
            seq![Step::Call(p.stack.last(), StreamEventView::Data(p.buffer), Route::Output)]
        } else {
            seq![Step::Emit(p.buffer)]
        }
    } else {
        seq![]
    }) + Seq::new(
        p.stack.len(),
        |i: int| Step::Call(p.stack[p.stack.len() - 1 - i], StreamEventView::Close, Route::Output),
    )
}

/// What `finish` does: the processor it leaves and the tokens it gives back.
/// Nothing is held back and no tag is open afterwards.
pub open spec fn finish_spec(p: ProcessorView, after: ProcessorView, out: Seq<Seq<char>>) -> bool {
    let steps = finish_steps(p);
    &&& after.names == p.names
    &&& after.markers == p.markers
    &&& after.patterns == p.patterns
    &&& after.stack == Seq::<Seq<char>>::empty()
    &&& after.buffer == Seq::<char>::empty()
    &&& exists|blocks: Seq<Seq<HandlerCall>>|
        fits(steps, blocks) && out == assemble(steps, blocks) && after.calls == p.calls
            + flatten(blocks)
}

/// Adding one step at the end adds its tokens and calls at the end.
pub proof fn lemma_assemble_push(
    steps: Seq<Step>,
    blocks: Seq<Seq<HandlerCall>>,
    s: Step,
    b: Seq<HandlerCall>,
)
    requires
        fits(steps, blocks),
        step_fits(s, b),
    ensures
        assemble(steps.push(s), blocks.push(b)) == assemble(steps, blocks) + step_output(s, b),
        flatten(blocks.push(b)) == flatten(blocks) + b,
        fits(steps.push(s), blocks.push(b)),
{
    assert(steps.push(s).drop_last() =~= steps);
    assert(blocks.push(b).drop_last() =~= blocks);
    assert forall|i: int| 0 <= i < steps.len() + 1 implies step_fits(
        #[trigger] steps.push(s)[i],
        blocks.push(b)[i],
    ) by {
        if i < steps.len() {
            assert(steps.push(s)[i] == steps[i]);
            assert(blocks.push(b)[i] == blocks[i]);
        }
    }
}

/// Every call is of a handler of one of the names.
pub open spec fn calls_registered(calls: Seq<HandlerCall>, names: Seq<Seq<char>>) -> bool {
    forall|i: int| 0 <= i < calls.len() ==> names.contains(#[trigger] calls[i].0)
}

/// Every open tag is one of the names.
pub open spec fn stack_registered(stack: Seq<Seq<char>>, names: Seq<Seq<char>>) -> bool {
    forall|i: int| 0 <= i < stack.len() ==> names.contains(#[trigger] stack[i])
}

/// The first steps of a fitting sequence fit with the first blocks.
proof fn lemma_fits_drop_last(steps: Seq<Step>, blocks: Seq<Seq<HandlerCall>>)
    requires
        fits(steps, blocks),
        steps.len() > 0,
    ensures
        fits(steps.drop_last(), blocks.drop_last()),
        step_fits(steps.last(), blocks.last()),
{
    assert(step_fits(steps[steps.len() - 1], blocks[blocks.len() - 1]));
    assert forall|i: int| 0 <= i < steps.len() - 1 implies step_fits(
        #[trigger] steps.drop_last()[i],
        blocks.drop_last()[i],
    ) by {
        assert(step_fits(steps[i], blocks[i]));
    }
}

/// Calls of registered tags, followed by more of them, are calls of
/// registered tags.
proof fn lemma_calls_registered_concat(a: Seq<HandlerCall>, b: Seq<HandlerCall>, names: Seq<Seq<char>>)
    requires
        calls_registered(a, names),
        calls_registered(b, names),
    ensures
        calls_registered(a + b, names),
{
    assert forall|i: int| 0 <= i < (a + b).len() implies names.contains(#[trigger] (a + b)[i].0) by {
        if i < a.len() {
            assert((a + b)[i] == a[i]);
        } else {
            assert((a + b)[i] == b[i - a.len()]);
        }
    }
}

/// Dispatching events that open only registered tags, from registered open
/// tags, calls only handlers of registered tags and leaves only registered
/// tags open.
pub proof fn lemma_plan_registered(
    stack: Seq<Seq<char>>,
    events: Seq<ScanEvent>,
    blocks: Seq<Seq<HandlerCall>>,
    names: Seq<Seq<char>>,
)
    requires
        stack_registered(stack, names),
        opens_registered(events, names),
        fits(plan(stack, events).0, blocks),
    ensures
        calls_registered(flatten(blocks), names),
        stack_registered(plan(stack, events).1, names),
    decreases events.len(),
{
    if events.len() == 0 {
        assert(blocks.len() == 0);
    } else {
        let prev_events = events.drop_last();
        assert forall|i: int| 0 <= i < prev_events.len() implies (#[trigger] prev_events[i] matches ScanEvent::OpenTag(n)
            ==> names.contains(n)) by {
            assert(prev_events[i] == events[i]);
        }
        let prev = plan(stack, prev_events);
        let steps = plan(stack, events).0;
        let st = prev.1;
        let e = events.last();
        assert(e == events[events.len() - 1]);
        let d = dispatch(st, e);
        assert(steps.drop_last() =~= prev.0);
        assert(steps.last() == d.0);
        lemma_fits_drop_last(steps, blocks);
        lemma_plan_registered(stack, prev_events, blocks.drop_last(), names);
        let b = blocks.last();
        if st.len() > 0 {
            assert(names.contains(st[st.len() - 1]));
        }
        if st.len() > 1 {
            assert(names.contains(st[st.len() - 2]));
        }
        assert forall|i: int| 0 <= i < b.len() implies names.contains(#[trigger] b[i].0) by {
            if let Step::Call(n, ev, route) = d.0 {
                if i == 0 {
                    assert(b[0].0 == n);
                } else {
                    if let Route::Parent(pn) = route {
                        assert(b[1 + (i - 1)].0 == pn);
                        if let ScanEvent::OpenTag(on) = e {
                            assert(st.push(on)[st.push(on).len() - 2] == st[st.len() - 1]);
                        }
                    }
                }
            }
        }
        lemma_calls_registered_concat(flatten(blocks.drop_last()), b, names);
        assert forall|i: int| 0 <= i < d.1.len() implies names.contains(#[trigger] d.1[i]) by {
            if let ScanEvent::OpenTag(on) = e {
                if i < st.len() {
                    assert(d.1[i] == st[i]);
                }
            } else if let ScanEvent::CloseTag(cn) = e {
                if st.len() > 0 && st.last() == cn {
                    assert(d.1[i] == st[i]);
                }
            }
        }
    }
}

/// The events `feed` dispatches open only registered tags.
proof fn lemma_feed_scan_registered(p: ProcessorView, raw: Seq<char>)
    requires
        processor_wf(p),
    ensures
        opens_registered(feed_scan(p, raw).0, p.names),
{
    let h = encode_utf8(p.buffer + raw);
    let pats = matching::encoded_patterns(p.markers);
    encode_utf8_valid_utf8(p.buffer + raw);
    lemma_markers_nonempty(p);
    matching::lemma_settled(p.markers, h);
    let m = matching::settled_matches(pats, h);
    lemma_scan_events_registered(p.patterns, p.names, h, m);
    let ev = feed_scan(p, raw).0;
    let ev1 = scan_events(p.patterns, h, m);
    assert forall|i: int| 0 <= i < ev.len() implies (#[trigger] ev[i] matches ScanEvent::OpenTag(n)
        ==> p.names.contains(n)) by {
        if i < ev1.len() {
            assert(ev[i] == ev1[i]);
        }
    }
}

/// The literals a processor searches for are not empty.
proof fn lemma_markers_nonempty(p: ProcessorView)
    requires
        processor_wf(p),
    ensures
        matching::all_nonempty(p.markers),
{
    assert forall|i: int| 0 <= i < p.markers.len() implies #[trigger] p.markers[i].len() > 0 by {
        assert(well_formed_marker(p.markers[i]));
    }
}

/// Handlers are only ever called for registered tags: every call that
/// `feed` makes is of the handler of a registered tag.
pub proof fn lemma_feed_calls_registered(
    p: ProcessorView,
    raw: Seq<char>,
    after: ProcessorView,
    out: Seq<Seq<char>>,
)
    requires
        processor_wf(p),
        feed_spec(p, raw, after, out),
    ensures
        after.calls.subrange(0, p.calls.len() as int) == p.calls,
        calls_registered(after.calls.subrange(p.calls.len() as int, after.calls.len() as int), p.names),
        stack_registered(after.stack, p.names),
{
    let scanned = feed_scan(p, raw);
    lemma_feed_scan_registered(p, raw);
    let planned = plan(p.stack, scanned.0);
    let blocks = choose|blocks: Seq<Seq<HandlerCall>>|
        fits(planned.0, blocks) && out == assemble(planned.0, blocks) && after.calls == p.calls
            + flatten(blocks);
    lemma_plan_registered(p.stack, scanned.0, blocks, p.names);
    assert(after.calls.subrange(0, p.calls.len() as int) =~= p.calls);
    assert(after.calls.subrange(p.calls.len() as int, after.calls.len() as int) =~= flatten(blocks));
}

/// Handlers are only ever called for registered tags: every call that
/// `finish` makes is of the handler of a tag that was open.
pub proof fn lemma_finish_calls_registered(p: ProcessorView, after: ProcessorView, out: Seq<Seq<char>>)
    requires
        processor_wf(p),
        finish_spec(p, after, out),
    ensures
        after.calls.subrange(0, p.calls.len() as int) == p.calls,
        calls_registered(after.calls.subrange(p.calls.len() as int, after.calls.len() as int), p.names),
{
    let steps = finish_steps(p);
    let blocks = choose|blocks: Seq<Seq<HandlerCall>>|
        fits(steps, blocks) && out == assemble(steps, blocks) && after.calls == p.calls + flatten(
            blocks,
        );
    assert forall|i: int| 0 <= i < steps.len() implies match #[trigger] steps[i] {
        Step::Emit(_) => true,
        Step::Call(n, _, route) => p.stack.contains(n) && route == Route::Output,
    } by {
        let first = if p.buffer.len() > 0 { 1int } else { 0int };
        if i >= first {
            let k = p.stack.len() - 1 - (i - first);
            assert(p.stack[k] == p.stack[k]);
        } else if p.stack.len() > 0 {
            assert(p.stack.last() == p.stack[p.stack.len() - 1]);
        }
    }
    lemma_trace_steps_registered(steps, blocks, p.names, p.stack);
    assert(after.calls.subrange(0, p.calls.len() as int) =~= p.calls);
    assert(after.calls.subrange(p.calls.len() as int, after.calls.len() as int) =~= flatten(blocks));
}

/// Steps that call only handlers of open tags, which are registered, with
/// their answers going out, make only calls of registered tags.
pub proof fn lemma_trace_steps_registered(
    steps: Seq<Step>,
    blocks: Seq<Seq<HandlerCall>>,
    names: Seq<Seq<char>>,
    stack: Seq<Seq<char>>,
)
    requires
        stack_registered(stack, names),
        fits(steps, blocks),
        forall|i: int|
            0 <= i < steps.len() ==> match #[trigger] steps[i] {
                Step::Emit(_) => true,
                Step::Call(n, _, route) => stack.contains(n) && route == Route::Output,
            },
    ensures
        calls_registered(flatten(blocks), names),
    decreases steps.len(),
{
    if steps.len() == 0 {
        assert(blocks.len() == 0);
    } else {
        let prev = steps.drop_last();
        assert forall|i: int| 0 <= i < prev.len() implies match #[trigger] prev[i] {
            Step::Emit(_) => true,
            Step::Call(n, _, route) => stack.contains(n) && route == Route::Output,
        } by {
            assert(prev[i] == steps[i]);
        }
        lemma_fits_drop_last(steps, blocks);
        lemma_trace_steps_registered(prev, blocks.drop_last(), names, stack);
        let b = blocks.last();
        assert(steps.last() == steps[steps.len() - 1]);
        assert forall|i: int| 0 <= i < b.len() implies names.contains(#[trigger] b[i].0) by {
            if let Step::Call(n, _, _) = steps.last() {
                let w = choose|w: int| 0 <= w < stack.len() && stack[w] == n;
                assert(names.contains(stack[w]));
            }
        }
        lemma_calls_registered_concat(flatten(blocks.drop_last()), b, names);
    }
}

/// No literal can be completed anywhere in text without `<`: nothing is
/// found in it and nothing of it is held back.
proof fn lemma_no_open_angle_no_literal(p: ProcessorView, b: Seq<char>)
    requires
        processor_wf(p),
        !b.contains('<'),
    ensures
        matching::settled_matches(matching::encoded_patterns(p.markers), encode_utf8(b)).len() == 0,
        matching::held_from(matching::encoded_patterns(p.markers), encode_utf8(b)) == encode_utf8(b).len(),
{
    let h = encode_utf8(b);
    let pats = matching::encoded_patterns(p.markers);
    assert forall|j: int| 0 <= j < pats.len() implies pats[j].len() > 0 && #[trigger] pats[j][0] == 60u8 by {
        let mk = p.markers[j];
        assert(well_formed_marker(mk));
        text::lemma_ascii_char_bytes(mk[0]);
        assert(mk =~= seq![mk[0]] + mk.drop_first());
        text::lemma_encode_utf8_concat(seq![mk[0]], mk.drop_first());
        assert(pats[j] == encode_utf8(mk));
    }
    assert forall|j: int, pos: int|
        0 <= j < pats.len() && 0 <= pos implies !#[trigger] matching::occurs_at(h, pats[j], pos) by {
        assert(pats[j][0] == 60u8);
        if matching::occurs_at(h, pats[j], pos) {
            assert(h.subrange(pos, pos + pats[j].len())[0] == h[pos]);
            text::lemma_open_angle_byte(b, pos);
        }
    }
    matching::lemma_no_occurrence_no_match(pats, h, 0);
    let m = matching::leftmost_first_matches(pats, h, 0);
    assert(matching::settled_count(pats, h, m, 0) == 0);
    assert(m.take(0) =~= seq![]);
    matching::lemma_hold_from(pats, h, 0);
    let hold = matching::hold_from(pats, h, 0);
    if hold < h.len() {
        let i = choose|i: int| 0 <= i < pats.len() && #[trigger] matching::is_partial(pats[i], h, hold);
        assert(pats[i][0] == 60u8);
        assert(h.subrange(hold, h.len() as int)[0] == h[hold]);
        assert(pats[i].subrange(0, h.len() - hold)[0] == pats[i][0]);
        text::lemma_open_angle_byte(b, hold);
    }
}

/// Text without `<` passes straight through: fed to a processor with no
/// tag open and nothing held back, it comes back as it is (nothing, for
/// empty text), no handler is called and nothing is held back.
pub proof fn lemma_plain_text_passes_through(
    p: ProcessorView,
    raw: Seq<char>,
    after: ProcessorView,
    out: Seq<Seq<char>>,
)
    requires
        processor_wf(p),
        feed_spec(p, raw, after, out),
        p.stack.len() == 0,
        p.buffer.len() == 0,
        !raw.contains('<'),
    ensures
        out == if raw.len() > 0 {
            seq![raw]
        } else {
            Seq::<Seq<char>>::empty()
        },
        after.buffer.len() == 0,
        after.calls == p.calls,
        after.stack.len() == 0,
{
    let b = p.buffer + raw;
    assert(b =~= raw);
    let h = encode_utf8(b);
    let pats = matching::encoded_patterns(p.markers);
    lemma_no_open_angle_no_literal(p, b);
    let m = matching::settled_matches(pats, h);
    assert(m =~= seq![]);
    assert(matching::end_of_matches(m) == 0);
    assert(scan_events(p.patterns, h, m) =~= seq![]);
    assert(h.subrange(h.len() as int, h.len() as int) =~= seq![]);
    assert(decode_utf8(Seq::<u8>::empty()) =~= seq![]);
    let ev = feed_scan(p, raw).0;
    let planned = plan(p.stack, ev);
    let blocks = choose|blocks: Seq<Seq<HandlerCall>>|
        fits(planned.0, blocks) && out == assemble(planned.0, blocks) && after.calls == p.calls
            + flatten(blocks);
    encode_utf8_decode_utf8(raw);
    assert(h.subrange(0, h.len() as int) =~= h);
    if h.len() > 0 {
        assert(ev =~= seq![ScanEvent::Text(raw)]);
        let e0 = ev.drop_last();
        assert(e0 =~= seq![]);
        assert(plan(p.stack, e0).0 =~= seq![]);
        assert(plan(p.stack, e0).1 == p.stack);
        assert(ev.last() == ScanEvent::Text(raw));
        assert(planned.0 == plan(p.stack, e0).0.push(dispatch(p.stack, ev.last()).0));
        assert(planned.0 =~= seq![Step::Emit(raw)]);
        assert(step_fits(planned.0[0], blocks[0]));
        assert(planned.0.drop_last() =~= seq![]);
        assert(blocks.drop_last() =~= seq![]);
        assert(blocks.last() == blocks[0]);
        assert(flatten(blocks.drop_last()) =~= seq![]);
        assert(flatten(blocks) =~= seq![]);
        assert(assemble(planned.0.drop_last(), blocks.drop_last()) =~= seq![]);
        assert(out =~= seq![raw]);
    } else {
        assert(raw.len() == 0) by {
            if raw.len() > 0 {
                assert(raw =~= seq![raw[0]] + raw.drop_first());
                text::lemma_encode_utf8_concat(seq![raw[0]], raw.drop_first());
            }
        }
        assert(ev =~= seq![]);
        assert(flatten(blocks) =~= seq![]);
    }
    assert(after.calls =~= p.calls);
}

/// Text without `<` fed while a tag is open, with nothing held back, goes
/// as one piece of data to the handler of the innermost open tag. Where that
/// tag is the only one open, what the handler answers is what `feed` hands
/// back; where it is nested, each token of the answer goes, in order, as
/// data to the handler of the tag directly enclosing it, and `feed` hands
/// back nothing. The open tags stay as they are and nothing is held back.
pub proof fn lemma_text_inside_tag(p: ProcessorView, raw: Seq<char>, after: ProcessorView, out: Seq<Seq<char>>)
    requires
        processor_wf(p),
        feed_spec(p, raw, after, out),
        p.stack.len() > 0,
        p.buffer.len() == 0,
        raw.len() > 0,
        !raw.contains('<'),
    ensures
        ({
            let d = after.calls.subrange(p.calls.len() as int, after.calls.len() as int);
            &&& after.stack == p.stack
            &&& after.buffer.len() == 0
            &&& d.len() >= 1
            &&& d[0].0 == p.stack[p.stack.len() - 1]
            &&& d[0].1 == StreamEventView::Data(raw)
            &&& p.stack.len() == 1 ==> d.len() == 1 && out == d[0].2
            &&& p.stack.len() > 1 ==> {
                &&& out.len() == 0
                &&& d.len() == 1 + d[0].2.len()
                &&& forall|j: int|
                    0 <= j < d[0].2.len() ==> (#[trigger] d[1 + j]).0 == p.stack[p.stack.len() - 2]
                        && d[1 + j].1 == StreamEventView::Data(d[0].2[j])
            }
        }),
{
    let b = p.buffer + raw;
    assert(b =~= raw);
    let h = encode_utf8(b);
    let pats = matching::encoded_patterns(p.markers);
    lemma_no_open_angle_no_literal(p, b);
    let m = matching::settled_matches(pats, h);
    assert(m =~= seq![]);
    assert(matching::end_of_matches(m) == 0);
    assert(scan_events(p.patterns, h, m) =~= seq![]);
    assert(h.subrange(h.len() as int, h.len() as int) =~= seq![]);
    assert(decode_utf8(Seq::<u8>::empty()) =~= seq![]);
    encode_utf8_decode_utf8(raw);
    assert(h.subrange(0, h.len() as int) =~= h);
    assert(h.len() > 0) by {
        assert(raw =~= seq![raw[0]] + raw.drop_first());
        text::lemma_encode_utf8_concat(seq![raw[0]], raw.drop_first());
        if h.len() == 0 {
            assert(decode_utf8(h) =~= Seq::<char>::empty());
        }
    }
    let ev = feed_scan(p, raw).0;
    assert(ev =~= seq![ScanEvent::Text(raw)]);
    let e0 = ev.drop_last();
    assert(e0 =~= seq![]);
    assert(plan(p.stack, e0).0 =~= seq![]);
    assert(plan(p.stack, e0).1 == p.stack);
    assert(ev.last() == ScanEvent::Text(raw));
    let step = Step::Call(p.stack.last(), StreamEventView::Data(raw), parent_route(p.stack));
    let planned = plan(p.stack, ev);
    assert(planned.0 == plan(p.stack, e0).0.push(dispatch(p.stack, ev.last()).0));
    assert(planned.0 =~= seq![step]);
    let blocks = choose|blocks: Seq<Seq<HandlerCall>>|
        fits(planned.0, blocks) && out == assemble(planned.0, blocks) && after.calls == p.calls
            + flatten(blocks);
    assert(step_fits(planned.0[0], blocks[0]));
    assert(planned.0.drop_last() =~= seq![]);
    assert(blocks.drop_last() =~= seq![]);
    assert(blocks.last() == blocks[0]);
    assert(flatten(blocks.drop_last()) =~= seq![]);
    assert(flatten(blocks) =~= blocks[0]);
    assert(assemble(planned.0.drop_last(), blocks.drop_last()) =~= seq![]);
    let d = after.calls.subrange(p.calls.len() as int, after.calls.len() as int);
    assert(d =~= blocks[0]);
    assert(out =~= step_output(step, blocks[0]));
    assert(p.stack.last() == p.stack[p.stack.len() - 1]);
}

/// The calls a sequence of calls answered, one answer after another.
pub open spec fn answers_of(calls: Seq<HandlerCall>) -> Seq<Seq<char>>
    decreases calls.len(),
{
    if calls.len() == 0 {
        seq![]
    } else {
        answers_of(calls.drop_last()) + calls.last().2
    }
}

/// Steps that are all handler calls whose answers go out make one call
/// each, and hand out the answers in order.
proof fn lemma_output_calls(steps: Seq<Step>, blocks: Seq<Seq<HandlerCall>>)
    requires
        fits(steps, blocks),
        forall|i: int| 0 <= i < steps.len() ==> (#[trigger] steps[i] matches Step::Call(_, _, Route::Output)),
    ensures
        flatten(blocks).len() == steps.len(),
        forall|i: int| 0 <= i < steps.len() ==> #[trigger] flatten(blocks)[i] == blocks[i][0],
        assemble(steps, blocks) == answers_of(flatten(blocks)),
    decreases steps.len(),
{
    if steps.len() == 0 {
        assert(blocks.len() == 0);
    } else {
        let prev = steps.drop_last();
        lemma_fits_drop_last(steps, blocks);
        assert forall|i: int| 0 <= i < prev.len() implies (#[trigger] prev[i] matches Step::Call(_, _, Route::Output)) by {
            assert(prev[i] == steps[i]);
        }
        lemma_output_calls(prev, blocks.drop_last());
        assert(steps.last() == steps[steps.len() - 1]);
        let b = blocks.last();
        assert(b.len() == 1);
        let f0 = flatten(blocks.drop_last());
        assert(flatten(blocks) == f0 + b);
        assert(f0 + b =~= f0.push(b[0]));
        assert forall|i: int| 0 <= i < steps.len() implies #[trigger] flatten(blocks)[i] == blocks[i][0] by {
            if i < prev.len() {
                assert(flatten(blocks)[i] == f0[i]);
                assert(blocks.drop_last()[i] == blocks[i]);
            }
        }
        assert(f0.push(b[0]).drop_last() =~= f0);
        assert(answers_of(flatten(blocks)) == answers_of(f0) + b[0].2);
    }
}

/// `finish` hands the text held back to the innermost open tag's handler,
/// or out where no tag is open, and then closes every open tag, innermost
/// first: the `k`-th closing call is of the handler of the `k`-th tag from
/// the innermost. What it hands back is the text held back where no tag is
/// open, else every answer of those calls, in order.
pub proof fn lemma_finish_closes_innermost_first(p: ProcessorView, after: ProcessorView, out: Seq<Seq<char>>)
    requires
        finish_spec(p, after, out),
    ensures
        ({
            let d = after.calls.subrange(p.calls.len() as int, after.calls.len() as int);
            let first: int = if p.buffer.len() > 0 && p.stack.len() > 0 { 1 } else { 0 };
            &&& d.len() == first + p.stack.len()
            &&& first == 1 ==> d[0].0 == p.stack[p.stack.len() - 1] && d[0].1 == StreamEventView::Data(p.buffer)
            &&& forall|k: int|
                0 <= k < p.stack.len() ==> (#[trigger] d[first + k]).0 == p.stack[p.stack.len() - 1 - k]
                    && d[first + k].1 == StreamEventView::Close
            &&& out == if p.stack.len() == 0 {
                if p.buffer.len() > 0 {
                    seq![p.buffer]
                } else {
                    Seq::<Seq<char>>::empty()
                }
            } else {
                answers_of(d)
            }
        }),
{
    let steps = finish_steps(p);
    let blocks = choose|blocks: Seq<Seq<HandlerCall>>|
        fits(steps, blocks) && out == assemble(steps, blocks) && after.calls == p.calls + flatten(
            blocks,
        );
    let d = after.calls.subrange(p.calls.len() as int, after.calls.len() as int);
    assert(d =~= flatten(blocks));
    let first: int = if p.buffer.len() > 0 && p.stack.len() > 0 { 1 } else { 0 };
    if p.stack.len() == 0 {
        if p.buffer.len() > 0 {
            assert(steps =~= seq![Step::Emit(p.buffer)]);
            assert(step_fits(steps[0], blocks[0]));
            assert(steps.drop_last() =~= Seq::<Step>::empty());
            assert(blocks.drop_last() =~= Seq::<Seq<HandlerCall>>::empty());
            assert(blocks.last() == blocks[0]);
            assert(flatten(blocks.drop_last()) =~= Seq::<HandlerCall>::empty());
            assert(flatten(blocks) =~= Seq::<HandlerCall>::empty());
            assert(assemble(steps.drop_last(), blocks.drop_last()) =~= Seq::<Seq<char>>::empty());
            assert(out =~= seq![p.buffer]);
        } else {
            assert(steps =~= Seq::<Step>::empty());
            assert(blocks.len() == 0);
            assert(flatten(blocks) =~= Seq::<HandlerCall>::empty());
        }
    } else {
        assert forall|i: int| 0 <= i < steps.len() implies (#[trigger] steps[i] matches Step::Call(_, _, Route::Output)) by {}
        lemma_output_calls(steps, blocks);
        assert(steps.len() == first + p.stack.len());
        if first == 1 {
            assert(step_fits(steps[0], blocks[0]));
            assert(d[0] == blocks[0][0]);
        }
        assert forall|k: int| 0 <= k < p.stack.len() implies (#[trigger] d[first + k]).0 == p.stack[p.stack.len() - 1 - k]
            && d[first + k].1 == StreamEventView::Close by {
            assert(steps[first + k] == Step::Call(p.stack[p.stack.len() - 1 - k], StreamEventView::Close, Route::Output));
            assert(step_fits(steps[first + k], blocks[first + k]));
            assert(d[first + k] == blocks[first + k][0]);
        }
    }
}

/// Once `finish` has run, a second `finish` hands out nothing and calls no
/// handler: the text held back is handed out once.
pub proof fn lemma_finish_twice(
    p: ProcessorView,
    mid: ProcessorView,
    out1: Seq<Seq<char>>,
    after: ProcessorView,
    out2: Seq<Seq<char>>,
)
    requires
        finish_spec(p, mid, out1),
        finish_spec(mid, after, out2),
    ensures
        out2.len() == 0,
        after == mid,
{
    assert(finish_steps(mid) =~= seq![]);
    let blocks = choose|blocks: Seq<Seq<HandlerCall>>|
        fits(finish_steps(mid), blocks) && out2 == assemble(finish_steps(mid), blocks) && after.calls
            == mid.calls + flatten(blocks);
    assert(blocks.len() == 0);
    assert(flatten(blocks) =~= seq![]);
    assert(after.calls =~= mid.calls);
    assert(after =~= mid);
}

/// The text steps hand out by themselves, apart from any handler's answer.
pub open spec fn emitted(steps: Seq<Step>) -> Seq<Seq<char>>
    decreases steps.len(),
{
    if steps.len() == 0 {
        seq![]
    } else {
        emitted(steps.drop_last()) + match steps.last() {
            Step::Emit(t) => seq![t],
            _ => seq![],
        }
    }
}

/// Every recorded call was answered with no token.
pub open spec fn all_quiet(calls: Seq<HandlerCall>) -> bool {
    forall|i: int| 0 <= i < calls.len() ==> (#[trigger] calls[i]).2.len() == 0
}

/// Where every handler answers with no token, the steps hand out exactly
/// their own text.
pub proof fn lemma_quiet_assemble(steps: Seq<Step>, blocks: Seq<Seq<HandlerCall>>)
    requires
        fits(steps, blocks),
        all_quiet(flatten(blocks)),
    ensures
        assemble(steps, blocks) == emitted(steps),
    decreases steps.len(),
{
    if steps.len() > 0 {
        lemma_fits_drop_last(steps, blocks);
        let f0 = flatten(blocks.drop_last());
        let b = blocks.last();
        assert(flatten(blocks) == f0 + b);
        assert forall|i: int| 0 <= i < f0.len() implies (#[trigger] f0[i]).2.len() == 0 by {
            assert((f0 + b)[i] == f0[i]);
        }
        lemma_quiet_assemble(steps.drop_last(), blocks.drop_last());
        if let Step::Call(_, _, _) = steps.last() {
            assert((f0 + b)[f0.len() as int] == b[0]);
            assert(b[0].2 =~= seq![]);
        }
    }
}

/// Where every handler that `feed` calls answers with no token, `feed`
/// hands back exactly the text it found outside any tag, and stray closing
/// literals, in order.
pub proof fn lemma_feed_with_quiet_handlers(
    p: ProcessorView,
    raw: Seq<char>,
    after: ProcessorView,
    out: Seq<Seq<char>>,
)
    requires
        feed_spec(p, raw, after, out),
        all_quiet(after.calls.subrange(p.calls.len() as int, after.calls.len() as int)),
    ensures
        out == emitted(plan(p.stack, feed_scan(p, raw).0).0),
{
    let planned = plan(p.stack, feed_scan(p, raw).0);
    let blocks = choose|blocks: Seq<Seq<HandlerCall>>|
        fits(planned.0, blocks) && out == assemble(planned.0, blocks) && after.calls == p.calls
            + flatten(blocks);
    assert(after.calls.subrange(p.calls.len() as int, after.calls.len() as int) =~= flatten(blocks));
    lemma_quiet_assemble(planned.0, blocks);
}

/// Where every handler that `finish` calls answers with no token, `finish`
/// hands back the text held back if no tag is open, and nothing otherwise.
pub proof fn lemma_finish_with_quiet_handlers(p: ProcessorView, after: ProcessorView, out: Seq<Seq<char>>)
    requires
        finish_spec(p, after, out),
        all_quiet(after.calls.subrange(p.calls.len() as int, after.calls.len() as int)),
    ensures
        out == if p.buffer.len() > 0 && p.stack.len() == 0 {
            seq![p.buffer]
        } else {
            Seq::<Seq<char>>::empty()
        },
{
    let steps = finish_steps(p);
    let blocks = choose|blocks: Seq<Seq<HandlerCall>>|
        fits(steps, blocks) && out == assemble(steps, blocks) && after.calls == p.calls + flatten(
            blocks,
        );
    assert(after.calls.subrange(p.calls.len() as int, after.calls.len() as int) =~= flatten(blocks));
    lemma_quiet_assemble(steps, blocks);
    lemma_emitted_finish_steps(p, steps.len() as int);
    assert(steps.take(steps.len() as int) =~= steps);
}

/// What the steps of `finish` hand out by themselves: the text held back,
/// where no tag is open.
proof fn lemma_emitted_finish_steps(p: ProcessorView, k: int)
    requires
        0 <= k <= finish_steps(p).len(),
    ensures
        emitted(finish_steps(p).take(k)) == if k > 0 && p.buffer.len() > 0 && p.stack.len() == 0 {
            seq![p.buffer]
        } else {
            Seq::<Seq<char>>::empty()
        },
    decreases k,
{
    let steps = finish_steps(p);
    if k == 0 {
        assert(steps.take(0) =~= seq![]);
    } else {
        lemma_emitted_finish_steps(p, k - 1);
        assert(steps.take(k).drop_last() =~= steps.take(k - 1));
        assert(steps.take(k).last() == steps[k - 1]);
        let first = if p.buffer.len() > 0 { 1int } else { 0int };
        if k - 1 >= first {
            let i = k - 1 - first;
            assert(steps[k - 1] == Step::Call(p.stack[p.stack.len() - 1 - i], StreamEventView::Close, Route::Output));
        }
    }
}

/// The text an event found in the buffer stands for.
pub open spec fn scan_event_text(e: ScanEvent) -> Seq<char> {
    match e {
        ScanEvent::Text(t) => t,
        ScanEvent::OpenTag(n) => open_marker(n),
        ScanEvent::CloseTag(n) => close_marker(n),
    }
}

/// The text a sequence of events found in the buffer stands for.
pub open spec fn scan_events_text(events: Seq<ScanEvent>) -> Seq<char>
    decreases events.len(),
{
    if events.len() == 0 {
        seq![]
    } else {
        scan_events_text(events.drop_last()) + scan_event_text(events.last())
    }
}

/// The events for the first `k` matches stand for the text up to where the
/// last of them ends, which is a character boundary.
pub proof fn lemma_scan_events_text(markers: Seq<Seq<char>>, h: Seq<u8>, m: Seq<(int, int, int)>, k: int)
    requires
        valid_utf8(h),
        forall|i: int| 0 <= i < markers.len() ==> well_formed_marker(#[trigger] markers[i]),
        matching::matches_wf(matching::encoded_patterns(markers), h, m, 0),
        0 <= k <= m.len(),
    ensures
        is_char_boundary(h, matching::end_of_matches(m.take(k))),
        0 <= matching::end_of_matches(m.take(k)) <= h.len(),
        scan_events_text(scan_events(parsed_patterns(markers), h, m.take(k))) == decode_utf8(
            h.subrange(0, matching::end_of_matches(m.take(k))),
        ),
    decreases k,
{
    let pats = matching::encoded_patterns(markers);
    let patterns = parsed_patterns(markers);
    if k == 0 {
        assert(m.take(0) =~= seq![]);
        is_char_boundary_start_end_of_seq(h);
        assert(h.subrange(0, 0) =~= seq![]);
        assert(decode_utf8(seq![]) =~= seq![]);
    } else {
        lemma_scan_events_text(markers, h, m, k - 1);
        let cur = m.take(k);
        let prev = m.take(k - 1);
        assert(cur.drop_last() =~= prev);
        assert(cur.last() == m[k - 1]);
        let from = matching::end_of_matches(prev);
        let (s, e, p) = m[k - 1];
        if k > 1 {
            assert(prev.last() == m[k - 2]);
            assert(m[k - 2].1 <= m[k - 1].0);
        }
        let mk = markers[p];
        assert(pats[p] == encode_utf8(mk));
        encode_utf8_valid_utf8(mk);
        text::lemma_occurrence_boundaries(h, pats[p], s);
        text::lemma_decode_split3(h, 0, from, s);
        text::lemma_decode_split3(h, 0, s, e);
        assert(h.subrange(s, e) == encode_utf8(mk));
        encode_utf8_decode_utf8(mk);
        lemma_marker_roundtrip(mk);
        let pt = patterns[p];
        let tag_ev = if pt.1 {
            ScanEvent::OpenTag(pt.0)
        } else {
            ScanEvent::CloseTag(pt.0)
        };
        assert(scan_event_text(tag_ev) == mk);
        let ev = scan_events(patterns, h, cur);
        let ev_prev = scan_events(patterns, h, prev);
        assert(ev.last() == tag_ev);
        assert(scan_events_text(ev) == scan_events_text(ev.drop_last()) + mk);
        if s > from {
            assert(ev.drop_last() =~= ev_prev + seq![ScanEvent::Text(decode_utf8(h.subrange(from, s)))]);
            assert(ev.drop_last().drop_last() =~= ev_prev);
            assert(scan_events_text(ev.drop_last()) == scan_events_text(ev_prev) + decode_utf8(
                h.subrange(from, s),
            ));
        } else {
            assert(h.subrange(from, s) =~= seq![]);
            assert(decode_utf8(h.subrange(from, s)) =~= seq![]);
            assert(ev.drop_last() =~= ev_prev);
        }
        assert(matching::end_of_matches(cur) == e);
        assert(scan_events_text(ev) =~= decode_utf8(h.subrange(0, e)));
    }
}

/// The scan of `feed` loses no text and keeps its order: the events it
/// finds, followed by what it then holds back, stand for the text held back
/// before followed by the text fed.
pub proof fn lemma_feed_scan_conserves_text(p: ProcessorView, raw: Seq<char>)
    requires
        processor_wf(p),
    ensures
        scan_events_text(feed_scan(p, raw).0) + feed_scan(p, raw).1 == p.buffer + raw,
{
    let b = p.buffer + raw;
    let h = encode_utf8(b);
    let pats = matching::encoded_patterns(p.markers);
    encode_utf8_valid_utf8(b);
    lemma_markers_nonempty(p);
    matching::lemma_settled(p.markers, h);
    let m = matching::settled_matches(pats, h);
    lemma_scan_events_text(p.markers, h, m, m.len() as int);
    assert(m.take(m.len() as int) =~= m);
    let end = matching::end_of_matches(m);
    let hold = matching::held_from(pats, h);
    is_char_boundary_start_end_of_seq(h);
    text::lemma_decode_split3(h, 0, end, hold);
    text::lemma_decode_split3(h, 0, hold, h.len() as int);
    assert(h.subrange(0, h.len() as int) =~= h);
    encode_utf8_decode_utf8(b);
    let ev1 = scan_events(p.patterns, h, m);
    let ev = feed_scan(p, raw).0;
    if hold > end {
        assert(ev.drop_last() =~= ev1);
        assert(ev.last() == ScanEvent::Text(decode_utf8(h.subrange(end, hold))));
    } else {
        assert(ev =~= ev1);
        assert(h.subrange(end, hold) =~= seq![]);
        assert(decode_utf8(h.subrange(end, hold)) =~= seq![]);
    }
}

/// The tag events among events found in the buffer, in order.
pub open spec fn scan_tags(events: Seq<ScanEvent>) -> Seq<ScanEvent>
    decreases events.len(),
{
    if events.len() == 0 {
        seq![]
    } else {
        scan_tags(events.drop_last()) + if events.last() is Text {
            seq![]
        } else {
            seq![events.last()]
        }
    }
}

/// The tag event for a match of the `p`-th pattern.
pub open spec fn pattern_event(patterns: Seq<(Seq<char>, bool)>, p: int) -> ScanEvent {
    if patterns[p].1 {
        ScanEvent::OpenTag(patterns[p].0)
    } else {
        ScanEvent::CloseTag(patterns[p].0)
    }
}

/// Tag events and texts of joined event sequences are joined.
proof fn lemma_scan_concat(a: Seq<ScanEvent>, b: Seq<ScanEvent>)
    ensures
        scan_tags(a + b) == scan_tags(a) + scan_tags(b),
        scan_events_text(a + b) == scan_events_text(a) + scan_events_text(b),
    decreases b.len(),
{
    if b.len() == 0 {
        assert(a + b =~= a);
        assert(scan_tags(a) + scan_tags(b) =~= scan_tags(a));
        assert(scan_events_text(a) + scan_events_text(b) =~= scan_events_text(a));
    } else {
        lemma_scan_concat(a, b.drop_last());
        assert((a + b).drop_last() =~= a + b.drop_last());
        assert((a + b).last() == b.last());
        assert(scan_tags(a + b) =~= scan_tags(a) + scan_tags(b));
        assert(scan_events_text(a + b) =~= scan_events_text(a) + scan_events_text(b));
    }
}

/// One event is a tag event unless it is text.
proof fn lemma_scan_tags_one(e: ScanEvent)
    ensures
        scan_tags(seq![e]) == if e is Text {
            Seq::<ScanEvent>::empty()
        } else {
            seq![e]
        },
{
    let s = seq![e];
    assert(s.drop_last() =~= Seq::<ScanEvent>::empty());
    assert(scan_tags(s.drop_last()) =~= Seq::<ScanEvent>::empty());
    assert(s.last() == e);
    assert(scan_tags(s) =~= if e is Text {
        Seq::<ScanEvent>::empty()
    } else {
        seq![e]
    });
}

/// The tag events among the events of matches are the matches' tag events.
proof fn lemma_scan_events_tags(patterns: Seq<(Seq<char>, bool)>, h: Seq<u8>, m: Seq<(int, int, int)>)
    ensures
        scan_tags(scan_events(patterns, h, m)) == m.map_values(
            |x: (int, int, int)| pattern_event(patterns, x.2),
        ),
    decreases m.len(),
{
    if m.len() > 0 {
        let prev = m.drop_last();
        lemma_scan_events_tags(patterns, h, prev);
        let from = matching::end_of_matches(prev);
        let raw = if m.last().0 > from {
            seq![ScanEvent::Text(decode_utf8(h.subrange(from, m.last().0)))]
        } else {
            seq![]
        };
        let te = seq![pattern_event(patterns, m.last().2)];
        let ep = scan_events(patterns, h, prev);
        assert(scan_events(patterns, h, m) == ep + raw + te);
        lemma_scan_concat(ep, raw);
        lemma_scan_concat(ep + raw, te);
        if raw.len() > 0 {
            lemma_scan_tags_one(raw[0]);
            assert(raw =~= seq![raw[0]]);
        } else {
            assert(raw =~= Seq::<ScanEvent>::empty());
        }
        lemma_scan_tags_one(te[0]);
        assert(te =~= seq![te[0]]);
        assert(m.map_values(|x: (int, int, int)| pattern_event(patterns, x.2)) =~= prev.map_values(
            |x: (int, int, int)| pattern_event(patterns, x.2),
        ) + te);
    }
}

/// The tag events `feed` finds are those of its settled matches.
proof fn lemma_feed_scan_tags(p: ProcessorView, raw: Seq<char>)
    ensures
        scan_tags(feed_scan(p, raw).0) == matching::settled_matches(
            matching::encoded_patterns(p.markers),
            encode_utf8(p.buffer + raw),
        ).map_values(|x: (int, int, int)| pattern_event(p.patterns, x.2)),
{
    let h = encode_utf8(p.buffer + raw);
    let pats = matching::encoded_patterns(p.markers);
    let m = matching::settled_matches(pats, h);
    let end = matching::end_of_matches(m);
    let hold = matching::held_from(pats, h);
    let ev1 = scan_events(p.patterns, h, m);
    lemma_scan_events_tags(p.patterns, h, m);
    if hold > end {
        let tail = seq![ScanEvent::Text(decode_utf8(h.subrange(end, hold)))];
        lemma_scan_concat(ev1, tail);
        lemma_scan_tags_one(tail[0]);
        assert(tail =~= seq![tail[0]]);
        assert(scan_tags(ev1 + tail) =~= scan_tags(ev1));
    } else {
        assert(feed_scan(p, raw).0 =~= ev1);
    }
}

/// Dispatching text leaves the open tags as they are: the open tags after a
/// sequence of events are those after its tag events alone.
proof fn lemma_plan_stack_tags(stack: Seq<Seq<char>>, events: Seq<ScanEvent>)
    ensures
        plan(stack, events).1 == plan(stack, scan_tags(events)).1,
    decreases events.len(),
{
    if events.len() > 0 {
        let prev = events.drop_last();
        lemma_plan_stack_tags(stack, prev);
        let e = events.last();
        if !(e is Text) {
            let t = scan_tags(events);
            assert(t == scan_tags(prev).push(e)) by {
                assert(scan_tags(prev) + seq![e] =~= scan_tags(prev).push(e));
            }
            assert(t.drop_last() =~= scan_tags(prev));
            assert(t.last() == e);
        }
    }
}

/// The open tags after joined event sequences are those after the second,
/// starting from those after the first.
proof fn lemma_plan_stack_concat(stack: Seq<Seq<char>>, a: Seq<ScanEvent>, b: Seq<ScanEvent>)
    ensures
        plan(stack, a + b).1 == plan(plan(stack, a).1, b).1,
    decreases b.len(),
{
    if b.len() == 0 {
        assert(a + b =~= a);
    } else {
        lemma_plan_stack_concat(stack, a, b.drop_last());
        assert((a + b).drop_last() =~= a + b.drop_last());
        assert((a + b).last() == b.last());
    }
}

/// The processor `p` with `raw` scanned into the text it holds back.
pub open spec fn rescanned(p: ProcessorView, raw: Seq<char>) -> ProcessorView {
    ProcessorView { buffer: feed_scan(p, raw).1, ..p }
}

/// Scanning `a` and then `b` finds the same tag events, the same text
/// between them and the same text in all as scanning `a` followed by `b`,
/// and holds back the same text.
proof fn lemma_scan_split(p: ProcessorView, a: Seq<char>, b: Seq<char>)
    requires
        processor_wf(p),
    ensures
        ({
            let e1 = feed_scan(p, a).0;
            let e2 = feed_scan(rescanned(p, a), b).0;
            let e3 = feed_scan(p, a + b).0;
            &&& scan_tags(e1 + e2) == scan_tags(e3)
            &&& text_between(e1 + e2) == text_between(e3)
            &&& scan_events_text(e1 + e2) == scan_events_text(e3)
            &&& feed_scan(rescanned(p, a), b).1 == feed_scan(p, a + b).1
        }),
{
    lemma_scan_split_tags(p, a, b);
    lemma_scan_split_between(p, a, b);
    lemma_scan_split_text(p, a, b);
}

/// The bytes scanned by feeding `a`, then `b`, and by feeding both at once:
/// the second scan sees what the first held back followed by `b`, which is
/// the whole from where the first holds back.
proof fn lemma_split_bytes(p: ProcessorView, a: Seq<char>, b: Seq<char>)
    requires
        processor_wf(p),
    ensures
        ({
            let pats = matching::encoded_patterns(p.markers);
            let p1 = rescanned(p, a);
            let t1 = encode_utf8(p.buffer + a);
            let ub = encode_utf8(b);
            let t = encode_utf8(p.buffer + (a + b));
            let t2 = encode_utf8(p1.buffer + b);
            let h1 = matching::held_from(pats, t1);
            &&& processor_wf(p1)
            &&& forall|j: int| 0 <= j < pats.len() ==> #[trigger] pats[j].len() > 0
            &&& t == t1 + ub
            &&& valid_utf8(t1) && valid_utf8(ub) && valid_utf8(t) && valid_utf8(t2)
            &&& 0 <= h1 <= t1.len()
            &&& t2 == t1.subrange(h1, t1.len() as int) + ub
            &&& t.subrange(h1, t.len() as int) == t2
            &&& matching::settled_matches(pats, t) == matching::settled_matches(pats, t1)
                + matching::shift_matches(matching::settled_matches(pats, t2), h1)
            &&& matching::held_from(pats, t) == h1 + matching::held_from(pats, t2)
        }),
{
    let pats = matching::encoded_patterns(p.markers);
    let p1 = rescanned(p, a);
    lemma_rescanned_holds(p, a);
    let t1 = encode_utf8(p.buffer + a);
    let ub = encode_utf8(b);
    assert(p.buffer + (a + b) =~= (p.buffer + a) + b);
    text::lemma_encode_utf8_concat(p.buffer + a, b);
    lemma_markers_nonempty(p);
    assert forall|j: int| 0 <= j < pats.len() implies #[trigger] pats[j].len() > 0 by {
        let mk = p.markers[j];
        encode_utf8_decode_utf8(mk);
        if pats[j].len() == 0 {
            assert(pats[j] =~= Seq::<u8>::empty());
            assert(decode_utf8(Seq::<u8>::empty()) =~= Seq::<char>::empty());
        }
    }
    matching::lemma_settled_split(pats, t1, ub);
    let h1 = matching::held_from(pats, t1);
    encode_utf8_valid_utf8(p.buffer + a);
    encode_utf8_valid_utf8(p.buffer + (a + b));
    encode_utf8_valid_utf8(b);
    matching::lemma_settled(p.markers, t1);
    is_char_boundary_start_end_of_seq(t1);
    text::lemma_boundary_in_suffix(t1, h1, t1.len() as int);
    let rest1 = t1.subrange(h1, t1.len() as int);
    decode_utf8_encode_utf8(rest1);
    assert(encode_utf8(p1.buffer) == rest1);
    text::lemma_encode_utf8_concat(p1.buffer, b);
    encode_utf8_valid_utf8(p1.buffer + b);
}

/// Scanning `a` and then `b` finds the same tag events as scanning `a`
/// followed by `b`, and holds back the same text.
#[verifier::rlimit(60)]
proof fn lemma_scan_split_tags(p: ProcessorView, a: Seq<char>, b: Seq<char>)
    requires
        processor_wf(p),
    ensures
        ({
            let e1 = feed_scan(p, a).0;
            let e2 = feed_scan(rescanned(p, a), b).0;
            let e3 = feed_scan(p, a + b).0;
            &&& scan_tags(e1 + e2) == scan_tags(e3)
            &&& feed_scan(rescanned(p, a), b).1 == feed_scan(p, a + b).1
        }),
{
    lemma_split_bytes(p, a, b);
    let pats = matching::encoded_patterns(p.markers);
    let p1 = rescanned(p, a);
    let t1 = encode_utf8(p.buffer + a);
    let t = encode_utf8(p.buffer + (a + b));
    let t2 = encode_utf8(p1.buffer + b);
    let h1 = matching::held_from(pats, t1);
    let held2 = matching::held_from(pats, t2);
    matching::lemma_settled(p.markers, t2);
    assert forall|i: int| 0 <= i < t2.len() - held2 implies t.subrange(h1 + held2, t.len() as int)[i]
        == t2.subrange(held2, t2.len() as int)[i] by {
        assert(t.subrange(h1, t.len() as int)[held2 + i] == t2[held2 + i]);
    }
    assert(t.subrange(h1 + held2, t.len() as int) =~= t2.subrange(held2, t2.len() as int));
    let e1 = feed_scan(p, a).0;
    let e2 = feed_scan(p1, b).0;
    let e3 = feed_scan(p, a + b).0;
    lemma_scan_concat(e1, e2);
    lemma_feed_scan_tags(p, a);
    lemma_feed_scan_tags(p1, b);
    lemma_feed_scan_tags(p, a + b);
    let f = |x: (int, int, int)| pattern_event(p.patterns, x.2);
    let s1 = matching::settled_matches(pats, t1);
    let s2 = matching::settled_matches(pats, t2);
    assert((s1 + matching::shift_matches(s2, h1)).map_values(f) =~= s1.map_values(f) + s2.map_values(f));
    assert(scan_tags(e1 + e2) == scan_tags(e3));
}

/// Scanning `a` and then `b` finds the same text between the tags as
/// scanning `a` followed by `b`.
#[verifier::rlimit(60)]
proof fn lemma_scan_split_between(p: ProcessorView, a: Seq<char>, b: Seq<char>)
    requires
        processor_wf(p),
    ensures
        ({
            let e1 = feed_scan(p, a).0;
            let e2 = feed_scan(rescanned(p, a), b).0;
            let e3 = feed_scan(p, a + b).0;
            &&& text_between(e1 + e2) == text_between(e3)
        }),
{
    lemma_split_bytes(p, a, b);
    let pats = matching::encoded_patterns(p.markers);
    let p1 = rescanned(p, a);
    let t1 = encode_utf8(p.buffer + a);
    let ub = encode_utf8(b);
    let t2 = encode_utf8(p1.buffer + b);
    let h1 = matching::held_from(pats, t1);
    let held2 = matching::held_from(pats, t2);
    let e1 = feed_scan(p, a).0;
    let e2 = feed_scan(p1, b).0;
    let s1 = matching::settled_matches(pats, t1);
    let s2 = matching::settled_matches(pats, t2);
    lemma_marker_matches_boundaries(p, t1);
    lemma_marker_matches_boundaries(p1, t2);
    lemma_text_between_concat(e1, e2);
    lemma_feed_scan_between(p, a);
    lemma_feed_scan_between(p1, b);
    lemma_feed_scan_between(p, a + b);
    scanner::lemma_segments_join(t1, ub, s1, h1, s2, held2);
}

/// Scanning `a` and then `b` finds the same text in all as scanning `a`
/// followed by `b`.
#[verifier::rlimit(60)]
proof fn lemma_scan_split_text(p: ProcessorView, a: Seq<char>, b: Seq<char>)
    requires
        processor_wf(p),
    ensures
        ({
            let e1 = feed_scan(p, a).0;
            let e2 = feed_scan(rescanned(p, a), b).0;
            let e3 = feed_scan(p, a + b).0;
            &&& scan_events_text(e1 + e2) == scan_events_text(e3)
        }),
{
    let p1 = rescanned(p, a);
    lemma_rescanned_holds(p, a);
    assert(processor_wf(p1));
    let e1 = feed_scan(p, a).0;
    let e2 = feed_scan(p1, b).0;
    let e3 = feed_scan(p, a + b).0;
    // The text.
    lemma_scan_split_tags(p, a, b);
    lemma_scan_concat(e1, e2);
    lemma_feed_scan_conserves_text(p, a);
    lemma_feed_scan_conserves_text(p1, b);
    lemma_feed_scan_conserves_text(p, a + b);
    let x = scan_events_text(e1) + scan_events_text(e2);
    let y = scan_events_text(e3);
    let b2 = feed_scan(p1, b).1;
    assert(x + b2 =~= scan_events_text(e1) + (scan_events_text(e2) + b2));
    assert(scan_events_text(e1) + (p1.buffer + b) =~= (scan_events_text(e1) + p1.buffer) + b);
    assert((p.buffer + a) + b =~= p.buffer + (a + b));
    assert(x + b2 == y + feed_scan(p, a + b).1);
    assert(x =~= y) by {
        assert(x.len() == y.len());
        assert forall|i: int| 0 <= i < x.len() implies x[i] == y[i] by {
            assert((x + b2)[i] == (y + feed_scan(p, a + b).1)[i]);
        }
    }
}


/// The text between consecutive tag events found in the buffer: before the
/// first, between each two, and after the last, with neighbouring text joined.
pub open spec fn text_between(events: Seq<ScanEvent>) -> Seq<Seq<char>>
    decreases events.len(),
{
    if events.len() == 0 {
        seq![seq![]]
    } else {
        let r = text_between(events.drop_last());
        match events.last() {
            ScanEvent::Text(x) => r.update(r.len() - 1, r.last() + x),
            _ => r.push(seq![]),
        }
    }
}

/// There is one more piece of text than there are tag events.
proof fn lemma_text_between_len(events: Seq<ScanEvent>)
    ensures
        text_between(events).len() == scan_tags(events).len() + 1,
    decreases events.len(),
{
    if events.len() > 0 {
        lemma_text_between_len(events.drop_last());
    }
}

/// The text around the tags of joined events is joined.
proof fn lemma_text_between_concat(a: Seq<ScanEvent>, b: Seq<ScanEvent>)
    ensures
        text_between(a + b) == scanner::join_between(text_between(a), text_between(b)),
    decreases b.len(),
{
    lemma_text_between_len(a);
    let ra = text_between(a);
    if b.len() == 0 {
        assert(a + b =~= a);
        assert(text_between(b) =~= seq![Seq::<char>::empty()]);
        assert(ra.last() + Seq::<char>::empty() =~= ra.last());
        assert(scanner::join_between(ra, text_between(b)) =~= ra);
    } else {
        let b0 = b.drop_last();
        lemma_text_between_concat(a, b0);
        lemma_text_between_len(b0);
        assert((a + b).drop_last() =~= a + b0);
        assert((a + b).last() == b.last());
        let rb0 = text_between(b0);
        let j0 = scanner::join_between(ra, rb0);
        match b.last() {
            ScanEvent::Text(x) => {
                let rb = rb0.update(rb0.len() - 1, rb0.last() + x);
                if rb0.len() == 1 {
                    assert((ra.last() + rb0[0]) + x =~= ra.last() + (rb0[0] + x));
                }
                assert(scanner::join_between(ra, rb) =~= j0.update(j0.len() - 1, j0.last() + x));
            },
            _ => {
                assert(scanner::join_between(ra, rb0.push(seq![])) =~= j0.push(seq![]));
            },
        }
    }
}

/// The text around the tags of the events of matches.
proof fn lemma_scan_events_between(patterns: Seq<(Seq<char>, bool)>, h: Seq<u8>, m: Seq<(int, int, int)>)
    requires
        forall|k: int| 0 <= k < m.len() ==> 0 <= #[trigger] m[k].0 <= m[k].1 <= h.len(),
        forall|k: int| 0 <= k < m.len() - 1 ==> #[trigger] m[k].1 <= m[k + 1].0,
    ensures
        text_between(scan_events(patterns, h, m)) == scanner::scan_segments(
            h,
            m,
            matching::end_of_matches(m),
        ),
    decreases m.len(),
{
    if m.len() == 0 {
        assert(h.subrange(0, 0) =~= Seq::<u8>::empty());
        assert(decode_utf8(Seq::<u8>::empty()) =~= Seq::<char>::empty());
        assert(scanner::scan_segments(h, m, 0) =~= seq![Seq::<char>::empty()]);
    } else {
        let prev = m.drop_last();
        assert forall|k: int| 0 <= k < prev.len() - 1 implies #[trigger] prev[k].1 <= prev[k + 1].0 by {
            assert(prev[k] == m[k]);
            assert(prev[k + 1] == m[k + 1]);
        }
        assert forall|k: int| 0 <= k < prev.len() implies 0 <= #[trigger] prev[k].0 <= prev[k].1 <= h.len() by {
            assert(prev[k] == m[k]);
        }
        lemma_scan_events_between(patterns, h, prev);
        assert(m.last() == m[m.len() - 1]);
        if prev.len() > 0 {
            assert(prev.last() == m[m.len() - 2]);
        }
        let from = matching::end_of_matches(prev);
        let start = m.last().0;
        let raw = if start > from {
            seq![ScanEvent::Text(decode_utf8(h.subrange(from, start)))]
        } else {
            seq![]
        };
        let te = seq![pattern_event(patterns, m.last().2)];
        let ep = scan_events(patterns, h, prev);
        assert(scan_events(patterns, h, m) == ep + raw + te);
        let rp = scanner::scan_segments(h, prev, from);
        assert(from == matching::cursor_at(m, prev.len() as int)) by {
            if prev.len() > 0 {
                assert(prev.last() == m[prev.len() - 1]);
            }
        }
        assert(text_between(ep + raw) == rp.update(rp.len() - 1, decode_utf8(h.subrange(from, start)))) by {
            assert(rp.last() =~= decode_utf8(h.subrange(from, from)));
            assert(h.subrange(from, from) =~= Seq::<u8>::empty());
            assert(decode_utf8(Seq::<u8>::empty()) =~= Seq::<char>::empty());
            if start > from {
                assert((ep + raw).drop_last() =~= ep);
                assert((ep + raw).last() == raw[0]);
                assert(rp.last() + decode_utf8(h.subrange(from, start)) =~= decode_utf8(h.subrange(from, start)));
            } else {
                assert(ep + raw =~= ep);
                assert(h.subrange(from, start) =~= Seq::<u8>::empty());
                assert(rp.update(rp.len() - 1, decode_utf8(h.subrange(from, start))) =~= rp);
            }
        }
        assert((ep + raw + te).drop_last() =~= ep + raw);
        assert((ep + raw + te).last() == te[0]);
        let end = matching::end_of_matches(m);
        assert(end == m.last().1);
        assert(text_between(ep + raw + te) =~= scanner::scan_segments(h, m, end)) by {
            let lhs = text_between(ep + raw + te);
            let rhs = scanner::scan_segments(h, m, end);
            assert(lhs.len() == rhs.len());
            assert forall|k: int| 0 <= k < lhs.len() implies lhs[k] == rhs[k] by {
                if k < prev.len() {
                    assert(prev[k] == m[k]);
                    assert(matching::cursor_at(prev, k) == matching::cursor_at(m, k)) by {
                        if k > 0 {
                            assert(prev[k - 1] == m[k - 1]);
                        }
                    }
                } else if k == prev.len() {
                } else {
                    assert(matching::cursor_at(m, k) == end);
                    assert(h.subrange(end, end) =~= Seq::<u8>::empty());
                    assert(decode_utf8(Seq::<u8>::empty()) =~= Seq::<char>::empty());
                }
            }
        }
    }
}

/// The settled matches of the buffer lie in order on character boundaries,
/// before the character boundary where text is held back.
proof fn lemma_marker_matches_boundaries(p: ProcessorView, x: Seq<u8>)
    requires
        processor_wf(p),
        valid_utf8(x),
    ensures
        ({
            let pats = matching::encoded_patterns(p.markers);
            let m = matching::settled_matches(pats, x);
            &&& forall|k: int|
                0 <= k < m.len() ==> 0 <= #[trigger] m[k].0 <= m[k].1 <= x.len() && is_char_boundary(x, m[k].0)
                    && is_char_boundary(x, m[k].1)
            &&& forall|k: int| 0 <= k < m.len() - 1 ==> #[trigger] m[k].1 <= m[k + 1].0
            &&& matching::cursor_at(m, m.len() as int) <= matching::held_from(pats, x) <= x.len()
            &&& is_char_boundary(x, matching::held_from(pats, x))
        }),
{
    let pats = matching::encoded_patterns(p.markers);
    let m = matching::settled_matches(pats, x);
    lemma_markers_nonempty(p);
    matching::lemma_settled(p.markers, x);
    assert forall|k: int| 0 <= k < m.len() implies 0 <= #[trigger] m[k].0 <= m[k].1 <= x.len()
        && is_char_boundary(x, m[k].0) && is_char_boundary(x, m[k].1) by {
        let q = m[k].2;
        assert(matching::occurs_at(x, pats[q], m[k].0));
        encode_utf8_valid_utf8(p.markers[q]);
        text::lemma_occurrence_boundaries(x, pats[q], m[k].0);
    }
    if m.len() > 0 {
        assert(m.last() == m[m.len() - 1]);
    }
}

/// The text around the tags `feed` finds.
proof fn lemma_feed_scan_between(p: ProcessorView, raw: Seq<char>)
    requires
        processor_wf(p),
    ensures
        text_between(feed_scan(p, raw).0) == scanner::scan_segments(
            encode_utf8(p.buffer + raw),
            matching::settled_matches(matching::encoded_patterns(p.markers), encode_utf8(p.buffer + raw)),
            matching::held_from(matching::encoded_patterns(p.markers), encode_utf8(p.buffer + raw)),
        ),
{
    let h = encode_utf8(p.buffer + raw);
    let pats = matching::encoded_patterns(p.markers);
    let m = matching::settled_matches(pats, h);
    let end = matching::end_of_matches(m);
    let hold = matching::held_from(pats, h);
    encode_utf8_valid_utf8(p.buffer + raw);
    lemma_marker_matches_boundaries(p, h);
    lemma_scan_events_between(p.patterns, h, m);
    let me = scan_events(p.patterns, h, m);
    let rm = scanner::scan_segments(h, m, end);
    assert(end == matching::cursor_at(m, m.len() as int)) by {
        if m.len() > 0 {
            assert(m.last() == m[m.len() - 1]);
        }
    }
    assert(rm.last() =~= Seq::<char>::empty()) by {
        assert(h.subrange(end, end) =~= Seq::<u8>::empty());
        assert(decode_utf8(Seq::<u8>::empty()) =~= Seq::<char>::empty());
    }
    if hold > end {
        let tail = seq![ScanEvent::Text(decode_utf8(h.subrange(end, hold)))];
        assert((me + tail).drop_last() =~= me);
        assert((me + tail).last() == tail[0]);
        assert(text_between(me + tail) =~= scanner::scan_segments(h, m, hold));
    } else {
        assert(feed_scan(p, raw).0 =~= me);
        assert(h.subrange(end, hold) =~= Seq::<u8>::empty());
        assert(rm =~= scanner::scan_segments(h, m, hold));
    }
}

/// Tokens one after another, as one text.
pub open spec fn concat_all(toks: Seq<Seq<char>>) -> Seq<char>
    decreases toks.len(),
{
    if toks.len() == 0 {
        seq![]
    } else {
        concat_all(toks.drop_last()) + toks.last()
    }
}

/// What a tag event hands out by itself, given the open tags before it: its
/// closing literal, for a closing tag with no tag open.
pub open spec fn tag_text(stack: Seq<Seq<char>>, e: ScanEvent) -> Seq<char> {
    match e {
        ScanEvent::CloseTag(n) => if stack.len() == 0 {
            close_marker(n)
        } else {
            seq![]
        },
        _ => seq![],
    }
}

/// The text handed out by itself for the tag events `tags`, with the text
/// `between` them, from the open tags `stack`: the text while no tag is open,
/// and closing literals with no tag open.
pub open spec fn outside_text(stack: Seq<Seq<char>>, tags: Seq<ScanEvent>, between: Seq<Seq<char>>) -> Seq<char>
    decreases tags.len(),
{
    if tags.len() == 0 {
        if stack.len() == 0 {
            between[0]
        } else {
            seq![]
        }
    } else {
        let before = tags.drop_last();
        outside_text(stack, before, between.drop_last()) + tag_text(plan(stack, before).1, tags.last())
            + if plan(stack, tags).1.len() == 0 {
            between.last()
        } else {
            seq![]
        }
    }
}

/// Tokens of joined sequences, as one text, are joined.
proof fn lemma_concat_all_concat(a: Seq<Seq<char>>, b: Seq<Seq<char>>)
    ensures
        concat_all(a + b) == concat_all(a) + concat_all(b),
    decreases b.len(),
{
    if b.len() == 0 {
        assert(a + b =~= a);
        assert(concat_all(a) + concat_all(b) =~= concat_all(a));
    } else {
        lemma_concat_all_concat(a, b.drop_last());
        assert((a + b).drop_last() =~= a + b.drop_last());
        assert((a + b).last() == b.last());
        assert(concat_all(a + b) =~= concat_all(a) + concat_all(b));
    }
}

/// The steps of joined events are those of the first, then those of the
/// second from the open tags the first leaves.
proof fn lemma_plan_steps_concat(stack: Seq<Seq<char>>, a: Seq<ScanEvent>, b: Seq<ScanEvent>)
    ensures
        plan(stack, a + b).0 == plan(stack, a).0 + plan(plan(stack, a).1, b).0,
        plan(stack, a + b).1 == plan(plan(stack, a).1, b).1,
    decreases b.len(),
{
    if b.len() == 0 {
        assert(a + b =~= a);
        assert(plan(stack, a).0 + plan(plan(stack, a).1, b).0 =~= plan(stack, a).0);
    } else {
        lemma_plan_steps_concat(stack, a, b.drop_last());
        assert((a + b).drop_last() =~= a + b.drop_last());
        assert((a + b).last() == b.last());
        let st = plan(stack, a).1;
        assert(plan(stack, a + b).0 =~= plan(stack, a).0 + plan(st, b).0);
    }
}

/// What steps of joined sequences hand out by themselves is joined.
proof fn lemma_emitted_concat(a: Seq<Step>, b: Seq<Step>)
    ensures
        emitted(a + b) == emitted(a) + emitted(b),
    decreases b.len(),
{
    if b.len() == 0 {
        assert(a + b =~= a);
        assert(emitted(a) + emitted(b) =~= emitted(a));
    } else {
        lemma_emitted_concat(a, b.drop_last());
        assert((a + b).drop_last() =~= a + b.drop_last());
        assert((a + b).last() == b.last());
        assert(emitted(a + b) =~= emitted(a) + emitted(b));
    }
}

/// Text added to the last piece is handed out with it when no tag is open.
proof fn lemma_outside_text_extend(stack: Seq<Seq<char>>, tags: Seq<ScanEvent>, between: Seq<Seq<char>>, x: Seq<char>)
    requires
        between.len() == tags.len() + 1,
    ensures
        outside_text(stack, tags, between.update(between.len() - 1, between.last() + x)) == outside_text(
            stack,
            tags,
            between,
        ) + if plan(stack, tags).1.len() == 0 {
            x
        } else {
            seq![]
        },
{
    let nb = between.update(between.len() - 1, between.last() + x);
    if tags.len() == 0 {
        assert(plan(stack, tags).1 == stack);
        if stack.len() == 0 {
            assert(nb[0] == between[0] + x);
        } else {
            assert(Seq::<char>::empty() + Seq::<char>::empty() =~= Seq::<char>::empty());
        }
    } else {
        assert(nb.drop_last() =~= between.drop_last());
        assert(nb.last() == between.last() + x);
        let o = outside_text(stack, tags.drop_last(), between.drop_last());
        let tt = tag_text(plan(stack, tags.drop_last()).1, tags.last());
        if plan(stack, tags).1.len() == 0 {
            assert(o + tt + (between.last() + x) =~= (o + tt + between.last()) + x);
        } else {
            assert(o + tt + Seq::<char>::empty() =~= (o + tt + Seq::<char>::empty()) + Seq::<char>::empty());
        }
    }
}

/// The text the steps of events hand out by themselves depends only on the
/// tag events and the text between them.
proof fn lemma_out_text(stack: Seq<Seq<char>>, events: Seq<ScanEvent>)
    ensures
        concat_all(emitted(plan(stack, events).0)) == outside_text(
            stack,
            scan_tags(events),
            text_between(events),
        ),
    decreases events.len(),
{
    lemma_text_between_len(events);
    if events.len() == 0 {
        assert(plan(stack, events).0 =~= Seq::<Step>::empty());
        assert(emitted(Seq::<Step>::empty()) =~= Seq::<Seq<char>>::empty());
        if stack.len() == 0 {
            assert(concat_all(Seq::<Seq<char>>::empty()) =~= Seq::<char>::empty());
        }
    } else {
        let prev = events.drop_last();
        lemma_out_text(stack, prev);
        lemma_text_between_len(prev);
        lemma_plan_stack_tags(stack, prev);
        let e = events.last();
        let st = plan(stack, prev).1;
        let steps = plan(stack, events).0;
        let d = dispatch(st, e);
        assert(steps.drop_last() =~= plan(stack, prev).0);
        assert(steps.last() == d.0);
        let t0 = scan_tags(prev);
        let r0 = text_between(prev);
        let em0 = emitted(plan(stack, prev).0);
        match e {
            ScanEvent::Text(x) => {
                assert(scan_tags(events) =~= t0);
                lemma_outside_text_extend(stack, t0, r0, x);
                if st.len() == 0 {
                    assert(emitted(steps) =~= em0.push(x));
                    assert(em0.push(x).drop_last() =~= em0);
                } else {
                    assert(emitted(steps) =~= em0);
                    assert(concat_all(em0) + Seq::<char>::empty() =~= concat_all(em0));
                }
            },
            _ => {
                let t = scan_tags(events);
                assert(t =~= t0.push(e));
                assert(t.drop_last() =~= t0);
                assert(text_between(events) == r0.push(seq![]));
                assert(r0.push(seq![]).drop_last() =~= r0);
                lemma_plan_stack_tags(stack, events);
                assert(plan(stack, t).1 == d.1);
                let o = outside_text(stack, t0, r0);
                if let ScanEvent::CloseTag(n) = e {
                    if st.len() == 0 {
                        assert(emitted(steps) =~= em0.push(close_marker(n)));
                        assert(em0.push(close_marker(n)).drop_last() =~= em0);
                        assert(o + close_marker(n) + Seq::<char>::empty() =~= o + close_marker(n));
                    } else {
                        assert(emitted(steps) =~= em0);
                        assert(o + Seq::<char>::empty() + Seq::<char>::empty() =~= o);
                    }
                } else {
                    assert(emitted(steps) =~= em0);
                    assert(o + Seq::<char>::empty() + Seq::<char>::empty() =~= o);
                }
            },
        }
    }
}

/// Scanning what a processor holds back finds no event and keeps it all.
proof fn lemma_scan_held(p: ProcessorView)
    requires
        processor_wf(p),
    ensures
        feed_scan(p, Seq::<char>::empty()) == (Seq::<ScanEvent>::empty(), p.buffer),
{
    let b = p.buffer + Seq::<char>::empty();
    assert(b =~= p.buffer);
    let t = encode_utf8(p.buffer);
    let pats = matching::encoded_patterns(p.markers);
    let m = matching::leftmost_first_matches(pats, t, 0);
    assert(matching::hold_from(pats, t, 0) == 0) by {
        if t.len() > 0 {
            assert(matching::partial_at(pats, t, 0));
        }
    }
    matching::lemma_matches_wf(pats, t, 0);
    if m.len() > 0 {
        assert(0 <= m[0].0);
    }
    assert(matching::settled_count(pats, t, m, 0) == 0);
    assert(m.take(0) =~= Seq::<(int, int, int)>::empty());
    let sm = matching::settled_matches(pats, t);
    assert(sm =~= Seq::<(int, int, int)>::empty());
    assert(matching::end_of_matches(sm) == 0);
    assert(matching::held_from(pats, t) == 0);
    assert(t.subrange(0, t.len() as int) =~= t);
    encode_utf8_decode_utf8(p.buffer);
    assert(scan_events(p.patterns, t, sm) =~= Seq::<ScanEvent>::empty());
    assert(feed_scan(p, Seq::<char>::empty()).0 =~= Seq::<ScanEvent>::empty());
}

/// An empty token finds nothing, calls no handler, hands back nothing and
/// leaves the processor as it was.
pub proof fn lemma_empty_token(p: ProcessorView, after: ProcessorView, out: Seq<Seq<char>>)
    requires
        processor_wf(p),
        feed_spec(p, Seq::<char>::empty(), after, out),
    ensures
        out.len() == 0,
        after == p,
{
    lemma_scan_held(p);
    let planned = plan(p.stack, Seq::<ScanEvent>::empty());
    assert(planned.0 =~= Seq::<Step>::empty());
    let blocks = choose|blocks: Seq<Seq<HandlerCall>>|
        fits(planned.0, blocks) && out == assemble(planned.0, blocks) && after.calls == p.calls
            + flatten(blocks);
    assert(blocks.len() == 0);
    assert(flatten(blocks) =~= Seq::<HandlerCall>::empty());
    assert(after.calls =~= p.calls);
    assert(after =~= p);
}

/// The chunks `cs` fed one after another: fed `cs[i]`, the processor
/// `ps[i]` becomes `ps[i + 1]` and hands back `outs[i]`.
pub open spec fn feeds(ps: Seq<ProcessorView>, cs: Seq<Seq<char>>, outs: Seq<Seq<Seq<char>>>) -> bool {
    &&& ps.len() == cs.len() + 1
    &&& outs.len() == cs.len()
    &&& forall|i: int| 0 <= i < cs.len() ==> feed_spec(#[trigger] ps[i], cs[i], ps[i + 1], outs[i])
}

/// Every handler called while feeding the first `k` chunks answered with
/// no token.
pub open spec fn feeds_quiet(ps: Seq<ProcessorView>, k: int) -> bool {
    forall|i: int|
        0 <= i < k ==> all_quiet(
            (#[trigger] ps[i + 1]).calls.subrange(ps[i].calls.len() as int, ps[i + 1].calls.len() as int),
        )
}

/// The events found while feeding the first `k` chunks, one after another.
pub open spec fn feeds_events(ps: Seq<ProcessorView>, cs: Seq<Seq<char>>, k: int) -> Seq<ScanEvent>
    decreases k,
{
    if k <= 0 {
        seq![]
    } else {
        feeds_events(ps, cs, k - 1) + feed_scan(ps[k - 1], cs[k - 1]).0
    }
}

/// The tokens handed back for the first `k` chunks, one after another.
pub open spec fn feeds_tokens(outs: Seq<Seq<Seq<char>>>, k: int) -> Seq<Seq<char>>
    decreases k,
{
    if k <= 0 {
        seq![]
    } else {
        feeds_tokens(outs, k - 1) + outs[k - 1]
    }
}

/// Feeding the first `k` chunks one after another comes to scanning them
/// from `ps[0]` at once.
#[verifier::rlimit(60)]
proof fn lemma_feeds_upto(ps: Seq<ProcessorView>, cs: Seq<Seq<char>>, outs: Seq<Seq<Seq<char>>>, k: int)
    requires
        processor_wf(ps[0]),
        feeds(ps, cs, outs),
        1 <= k <= cs.len(),
    ensures
        ({
            let p0 = ps[0];
            let w = feed_scan(p0, scanner::concat_chunks(cs.take(k)));
            &&& processor_wf(ps[k])
            &&& ps[k].names == p0.names
            &&& ps[k].markers == p0.markers
            &&& ps[k].patterns == p0.patterns
            &&& ps[k].buffer == w.1
            &&& ps[k].stack == plan(p0.stack, w.0).1
            &&& scan_tags(feeds_events(ps, cs, k)) == scan_tags(w.0)
            &&& text_between(feeds_events(ps, cs, k)) == text_between(w.0)
            &&& scan_events_text(feeds_events(ps, cs, k)) == scan_events_text(w.0)
            &&& feeds_quiet(ps, k) ==> concat_all(feeds_tokens(outs, k)) == concat_all(
                emitted(plan(p0.stack, w.0).0),
            )
        }),
    decreases k,
{
    let p0 = ps[0];
    assert(feed_spec(ps[k - 1], cs[k - 1], ps[k], outs[k - 1]));
    if k == 1 {
        assert(cs.take(1) =~= seq![cs[0]]);
        assert(cs.take(1).drop_last() =~= Seq::<Seq<char>>::empty());
        assert(scanner::concat_chunks(cs.take(1).drop_last()) =~= Seq::<char>::empty());
        assert(cs.take(1).last() == cs[0]);
        assert(Seq::<char>::empty() + cs[0] =~= cs[0]);
        assert(scanner::concat_chunks(cs.take(1)) =~= cs[0]);
        assert(feeds_events(ps, cs, 0) =~= Seq::<ScanEvent>::empty());
        assert(feeds_events(ps, cs, 1) =~= feed_scan(p0, cs[0]).0);
        lemma_feed_calls_registered(p0, cs[0], ps[1], outs[0]);
        lemma_rescanned_holds(p0, cs[0]);
        assert(ps[1] == (ProcessorView { stack: ps[1].stack, calls: ps[1].calls, ..rescanned(p0, cs[0]) }));
            if feeds_quiet(ps, 1) {
            assert(all_quiet(ps[1].calls.subrange(ps[0].calls.len() as int, ps[1].calls.len() as int)));
            lemma_feed_with_quiet_handlers(p0, cs[0], ps[1], outs[0]);
            assert(feeds_tokens(outs, 0) =~= Seq::<Seq<char>>::empty());
            assert(Seq::<Seq<char>>::empty() + outs[0] =~= outs[0]);
            assert(feeds_tokens(outs, 1) =~= outs[0]);
        }
    } else {
        lemma_feeds_upto(ps, cs, outs, k - 1);
        let pk = ps[k - 1];
        let c = cs[k - 1];
        let ck = scanner::concat_chunks(cs.take(k - 1));
        assert(cs.take(k).drop_last() =~= cs.take(k - 1));
        assert(cs.take(k).last() == c);
        assert(scanner::concat_chunks(cs.take(k)) == ck + c);
        let q = rescanned(p0, ck);
        lemma_scan_split(p0, ck, c);
        assert(feed_scan(pk, c) == feed_scan(q, c));
        let wk = feed_scan(p0, ck).0;
        let f = feed_scan(pk, c).0;
        let u = feeds_events(ps, cs, k - 1);
        lemma_scan_concat(u, f);
        lemma_scan_concat(wk, f);
        lemma_text_between_concat(u, f);
        lemma_text_between_concat(wk, f);
        // The open tags.
        lemma_feed_calls_registered(pk, c, ps[k], outs[k - 1]);
        lemma_rescanned_holds(pk, c);
            lemma_plan_steps_concat(p0.stack, wk, f);
        lemma_plan_stack_tags(p0.stack, wk + f);
        lemma_plan_stack_tags(p0.stack, feed_scan(p0, ck + c).0);
        // The tokens.
        if feeds_quiet(ps, k) {
            assert(feeds_quiet(ps, k - 1));
            assert(all_quiet(ps[k].calls.subrange(ps[k - 1].calls.len() as int, ps[k].calls.len() as int)));
            lemma_feed_with_quiet_handlers(pk, c, ps[k], outs[k - 1]);
            lemma_concat_all_concat(feeds_tokens(outs, k - 1), outs[k - 1]);
            lemma_emitted_concat(plan(p0.stack, wk).0, plan(plan(p0.stack, wk).1, f).0);
            lemma_concat_all_concat(emitted(plan(p0.stack, wk).0), emitted(plan(plan(p0.stack, wk).1, f).0));
            lemma_out_text(p0.stack, wk + f);
            lemma_out_text(p0.stack, feed_scan(p0, ck + c).0);
        }
    }
}

/// Where a text is split into tokens does not change what the processor
/// does: feeding the chunks `cs` one after another finds the same tag
/// events, in order, the same text between each two of them and the same
/// text in all as feeding them at once, and leaves the same text held back
/// and the same tags open; while every handler answers with no token, the
/// tokens handed back, as one text, are the same too. Only how text is cut
/// into data for the handlers may differ.
pub proof fn lemma_feeds_split_independent(
    ps: Seq<ProcessorView>,
    cs: Seq<Seq<char>>,
    outs: Seq<Seq<Seq<char>>>,
    whole: ProcessorView,
    out: Seq<Seq<char>>,
)
    requires
        processor_wf(ps[0]),
        feeds(ps, cs, outs),
        feed_spec(ps[0], scanner::concat_chunks(cs), whole, out),
    ensures
        ps.last().buffer == whole.buffer,
        ps.last().stack == whole.stack,
        scan_tags(feeds_events(ps, cs, cs.len() as int)) == scan_tags(
            feed_scan(ps[0], scanner::concat_chunks(cs)).0,
        ),
        text_between(feeds_events(ps, cs, cs.len() as int)) == text_between(
            feed_scan(ps[0], scanner::concat_chunks(cs)).0,
        ),
        scan_events_text(feeds_events(ps, cs, cs.len() as int)) == scan_events_text(
            feed_scan(ps[0], scanner::concat_chunks(cs)).0,
        ),
        feeds_quiet(ps, cs.len() as int) && all_quiet(
            whole.calls.subrange(ps[0].calls.len() as int, whole.calls.len() as int),
        ) ==> concat_all(feeds_tokens(outs, cs.len() as int)) == concat_all(out),
{
    let n = cs.len() as int;
    if n == 0 {
        assert(scanner::concat_chunks(cs) =~= Seq::<char>::empty());
        lemma_empty_token(ps[0], whole, out);
        lemma_scan_held(ps[0]);
        assert(ps.last() == ps[0]);
        assert(feeds_events(ps, cs, 0) =~= Seq::<ScanEvent>::empty());
        assert(feeds_tokens(outs, 0) =~= Seq::<Seq<char>>::empty());
    } else {
        lemma_feeds_upto(ps, cs, outs, n);
        assert(cs.take(n) =~= cs);
        assert(ps.last() == ps[n]);
        if feeds_quiet(ps, n) && all_quiet(whole.calls.subrange(ps[0].calls.len() as int, whole.calls.len() as int)) {
            lemma_feed_with_quiet_handlers(ps[0], scanner::concat_chunks(cs), whole, out);
        }
    }
}

/// A well-formed literal is the literal of the pattern it is read back as.
pub proof fn lemma_marker_roundtrip(m: Seq<char>)
    requires
        well_formed_marker(m),
    ensures
        marker_of(parse_marker(m)) == m,
        parse_marker(marker_of(parse_marker(m))) == parse_marker(m),
{
    if is_close_marker(m) {
        assert(close_marker(m.subrange(2, m.len() - 1)) =~= m);
    } else {
        assert(open_marker(m.subrange(1, m.len() - 1)) =~= m);
    }
}

/// The literals of a tag are well formed.
pub proof fn lemma_tag_markers_well_formed(tag: Seq<char>)
    ensures
        well_formed_marker(open_marker(tag)),
        well_formed_marker(close_marker(tag)),
{
    assert(open_marker(tag)[0] == '<');
    assert(open_marker(tag).last() == '>');
    assert(close_marker(tag)[0] == '<');
    assert(close_marker(tag)[1] == '/');
    assert(close_marker(tag).last() == '>');
}

/// The byte lengths of the ASCII ends of a well-formed literal.
pub proof fn lemma_marker_bytes(m: Seq<char>)
    requires
        well_formed_marker(m),
    ensures
        encode_utf8(m.take(1)).len() == 1,
        is_close_marker(m) ==> encode_utf8(m.take(2)).len() == 2,
        encode_utf8(m.take(m.len() - 1)).len() + 1 == encode_utf8(m).len(),
{
    text::lemma_ascii_char_bytes(m[0]);
    assert(m.take(1) =~= seq![m[0]]);
    if is_close_marker(m) {
        text::lemma_ascii_char_bytes(m[1]);
        assert(m.take(2) =~= seq![m[0]] + seq![m[1]]);
        text::lemma_encode_utf8_concat(seq![m[0]], seq![m[1]]);
    }
    text::lemma_ascii_char_bytes(m.last());
    assert(m =~= m.take(m.len() - 1) + seq![m.last()]);
    text::lemma_encode_utf8_concat(m.take(m.len() - 1), seq![m.last()]);
}

/// The literals of the patterns of a processor are its own literals.
pub proof fn lemma_rebuilt_markers(tag: Seq<char>, markers: Seq<Seq<char>>, k: int)
    requires
        forall|i: int| 0 <= i < markers.len() ==> well_formed_marker(#[trigger] markers[i]),
        0 <= k <= markers.len(),
    ensures
        ({
            let r = rebuilt_markers(tag, parsed_patterns(markers).take(k));
            &&& r.len() >= 2
            &&& r[0] == open_marker(tag)
            &&& r[1] == close_marker(tag)
            &&& forall|i: int|
                0 <= i < r.len() ==> (#[trigger] r[i] == open_marker(tag) || r[i]
                    == close_marker(tag) || markers.contains(r[i]))
            &&& forall|j: int| 0 <= j < k ==> r.contains(#[trigger] markers[j])
        }),
    decreases k,
{
    let ps = parsed_patterns(markers).take(k);
    if k == 0 {
        assert(ps =~= seq![]);
    } else {
        lemma_rebuilt_markers(tag, markers, k - 1);
        assert(ps.drop_last() =~= parsed_patterns(markers).take(k - 1));
        lemma_marker_roundtrip(markers[k - 1]);
        assert(marker_of(ps.last()) == markers[k - 1]);
        let acc = rebuilt_markers(tag, parsed_patterns(markers).take(k - 1));
        let r = rebuilt_markers(tag, ps);
        assert forall|j: int| 0 <= j < k implies r.contains(#[trigger] markers[j]) by {
            if j < k - 1 {
                let w = choose|w: int| 0 <= w < acc.len() && acc[w] == markers[j];
                if !acc.contains(markers[k - 1]) {
                    assert(r[w] == acc[w]);
                }
            } else if !acc.contains(markers[k - 1]) {
                assert(r[acc.len() as int] == markers[k - 1]);
            }
        }
    }
}

/// Some recorded call is of the handler of `n`.
pub open spec fn calls_for(calls: Seq<HandlerCall>, n: Seq<char>) -> bool {
    exists|i: int| 0 <= i < calls.len() && (#[trigger] calls[i]).0 == n
}

/// A call among either part is a call among both.
proof fn lemma_calls_for_concat(a: Seq<HandlerCall>, b: Seq<HandlerCall>, n: Seq<char>)
    ensures
        calls_for(a, n) || calls_for(b, n) ==> calls_for(a + b, n),
{
    if calls_for(a, n) {
        let i = choose|i: int| 0 <= i < a.len() && (#[trigger] a[i]).0 == n;
        assert((a + b)[i] == a[i]);
    } else if calls_for(b, n) {
        let i = choose|i: int| 0 <= i < b.len() && (#[trigger] b[i]).0 == n;
        assert((a + b)[a.len() + i] == b[i]);
    }
}

/// The recorded calls of the handler of `n`, each as its event and answer.
pub open spec fn calls_named(calls: Seq<HandlerCall>, n: Seq<char>) -> Seq<(StreamEventView, Seq<Seq<char>>)>
    decreases calls.len(),
{
    if calls.len() == 0 {
        seq![]
    } else {
        calls_named(calls.drop_last(), n) + if calls.last().0 == n {
            seq![(calls.last().1, calls.last().2)]
        } else {
            seq![]
        }
    }
}

/// The calls of `n` among joined calls are joined.
proof fn lemma_calls_named_concat(a: Seq<HandlerCall>, b: Seq<HandlerCall>, n: Seq<char>)
    ensures
        calls_named(a + b, n) == calls_named(a, n) + calls_named(b, n),
    decreases b.len(),
{
    if b.len() == 0 {
        assert(a + b =~= a);
        assert(calls_named(a, n) + calls_named(b, n) =~= calls_named(a, n));
    } else {
        lemma_calls_named_concat(a, b.drop_last(), n);
        assert((a + b).drop_last() =~= a + b.drop_last());
        assert((a + b).last() == b.last());
        assert(calls_named(a + b, n) =~= calls_named(a, n) + calls_named(b, n));
    }
}

/// Where `n` occurs once, it is found at its index.
proof fn lemma_index_of_unique(names: Seq<Seq<char>>, i: int)
    requires
        names.no_duplicates(),
        0 <= i < names.len(),
    ensures
        names.index_of(names[i]) == i,
{
    assert(names.contains(names[i]));
    let j = names.index_of(names[i]);
    assert(0 <= j < names.len() && names[j] == names[i]);
}

/// Registering `tag` with `handler`, by replacing its handler or adding it
/// at the end, makes `handler` the one found for `tag` and keeps the one
/// found for every other name.
proof fn lemma_registered_handlers<H>(
    names0: Seq<Seq<char>>,
    handlers0: Seq<H>,
    names1: Seq<Seq<char>>,
    handlers1: Seq<H>,
    tag: Seq<char>,
    handler: H,
)
    requires
        names0.no_duplicates(),
        names1.no_duplicates(),
        handlers0.len() == names0.len(),
        names0.contains(tag) ==> names1 == names0 && handlers1 == handlers0.update(
            names0.index_of(tag),
            handler,
        ),
        !names0.contains(tag) ==> names1 == names0.push(tag) && handlers1 == handlers0.push(
            handler,
        ),
    ensures
        names1.contains(tag),
        handlers1[names1.index_of(tag)] == handler,
        forall|n: Seq<char>|
            n != tag ==> (names1.contains(n) <==> names0.contains(n)) && (names0.contains(n)
                ==> handlers1[names1.index_of(n)] == handlers0[names0.index_of(n)]),
{
    if names0.contains(tag) {
        let i = names0.index_of(tag);
        assert(names0[i] == tag);
        lemma_index_of_unique(names0, i);
        assert forall|n: Seq<char>| n != tag && names0.contains(n) implies handlers1[names1.index_of(n)]
            == handlers0[names0.index_of(n)] by {
            let j = names0.index_of(n);
            assert(names0[j] == n);
        }
    } else {
        let last = names0.len() as int;
        assert(names1[last] == tag);
        lemma_index_of_unique(names1, last);
        assert forall|n: Seq<char>| n != tag implies (names1.contains(n) <==> names0.contains(n)) && (
        names0.contains(n) ==> handlers1[names1.index_of(n)] == handlers0[names0.index_of(n)]) by {
            if names0.contains(n) {
                let j = names0.index_of(n);
                assert(names0[j] == n);
                assert(names1[j] == n);
                lemma_index_of_unique(names1, j);
            }
            if names1.contains(n) {
                let j = names1.index_of(n);
                assert(names1[j] == n);
                assert(j != last);
                assert(names0[j] == n);
            }
        }
    }
}

/// Processes a stream of string tokens, handling embedded tags like <tag>...</tag>.
pub struct TokenProcessor<H> {
    names: Vec<String>,
    handlers: Vec<H>,
    stack: Vec<Frame>,
    buffer: String,
    markers: Vec<String>,
    patterns: Vec<(String, bool)>,
    calls: Ghost<Seq<HandlerCall>>,
}

/// The names of the frames.
spec fn frame_names(stack: Seq<Frame>) -> Seq<Seq<char>> {
    stack.map_values(|f: Frame| f.name@)
}

/// The patterns as character sequences.
pub open spec fn patterns_view(patterns: Seq<(String, bool)>) -> Seq<(Seq<char>, bool)> {
    patterns.map_values(|p: (String, bool)| (p.0@, p.1))
}

impl<H> View for TokenProcessor<H> {
    type V = ProcessorView;

    closed spec fn view(&self) -> ProcessorView {
        ProcessorView {
            names: self.names.deep_view(),
            stack: frame_names(self.stack@),
            buffer: self.buffer@,
            markers: self.markers.deep_view(),
            patterns: patterns_view(self.patterns@),
            calls: self.calls@,
        }
    }
}

/// The invariant of a processor's view: names are unique, each literal is
/// well formed and read back as its pattern, every tag a pattern opens and
/// every open tag has a handler, and the literals build an automaton.
pub open spec fn processor_wf(p: ProcessorView) -> bool {
    &&& p.names.no_duplicates()
    &&& p.markers.len() == p.patterns.len()
    &&& forall|i: int| 0 <= i < p.markers.len() ==> well_formed_marker(#[trigger] p.markers[i])
    &&& p.patterns == parsed_patterns(p.markers)
    &&& forall|i: int|
        0 <= i < p.patterns.len() && (#[trigger] p.patterns[i]).1 ==> p.names.contains(
            p.patterns[i].0,
        )
    &&& forall|i: int| 0 <= i < p.stack.len() ==> p.names.contains(#[trigger] p.stack[i])
    &&& p.markers.len() == 0 || matching::automaton_builds(p.markers)
    &&& holds_marker_start(p)
}

/// The processor holds back nothing, or the beginning of a literal it
/// searches for, short of the whole literal.
pub open spec fn holds_marker_start(p: ProcessorView) -> bool {
    encode_utf8(p.buffer).len() == 0 || matching::partial_at(
        matching::encoded_patterns(p.markers),
        encode_utf8(p.buffer),
        0,
    )
}

/// After `feed` scans, the processor holds back nothing, or the beginning of
/// a literal.
proof fn lemma_rescanned_holds(p: ProcessorView, raw: Seq<char>)
    requires
        processor_wf(p),
    ensures
        holds_marker_start(rescanned(p, raw)),
{
    let h = encode_utf8(p.buffer + raw);
    let pats = matching::encoded_patterns(p.markers);
    let hold = matching::held_from(pats, h);
    encode_utf8_valid_utf8(p.buffer + raw);
    lemma_markers_nonempty(p);
    matching::lemma_settled(p.markers, h);
    is_char_boundary_start_end_of_seq(h);
    text::lemma_boundary_in_suffix(h, hold, h.len() as int);
    let rest = h.subrange(hold, h.len() as int);
    decode_utf8_encode_utf8(rest);
    assert(encode_utf8(rescanned(p, raw).buffer) == rest);
    if hold < h.len() {
        let i = choose|i: int| 0 <= i < pats.len() && #[trigger] matching::is_partial(pats[i], h, hold);
        assert(rest.subrange(0, rest.len() as int) =~= h.subrange(hold, h.len() as int));
        assert(matching::is_partial(pats[i], rest, 0));
    }
}

/// Whether `s` is one of the strings in `v`.
fn contains_string(v: &Vec<String>, s: &String) -> (res: bool)
    ensures
        res == v.deep_view().contains(s@),
{
    let mut j: usize = 0;
    while j < v.len()
        invariant
            j <= v@.len(),
            forall|k: int| 0 <= k < j ==> v.deep_view()[k] != s@,
        decreases v@.len() - j,
    {
        if v[j] == *s {
            assert(v.deep_view()[j as int] == s@);
            return true;
        }
        j = j + 1;
    }
    false
}

impl<H: TagHandler> TokenProcessor<H> {
    /// The processor's view satisfies its invariant and there is one handler
    /// per name.
    pub closed spec fn wf(&self) -> bool {
        &&& processor_wf(self@)
        &&& self.handlers@.len() == self.names@.len()
    }

    /// The handler registered for the tag `name`, if there is one.
    pub closed spec fn handler_of(&self, name: Seq<char>) -> Option<H> {
        if self@.names.contains(name) {
            Some(self.handlers@[self@.names.index_of(name)])
        } else {
            None
        }
    }

    /// What the handler of `name` has been given and answered, or nothing
    /// where no handler is registered for it.
    pub open spec fn history_of(&self, name: Seq<char>) -> Seq<(StreamEventView, Seq<Seq<char>>)> {
        match self.handler_of(name) {
            Some(h) => h.history(),
            None => seq![],
        }
    }

    /// The history of every tag's handler has grown from the one in `before`
    /// by exactly the calls of that handler among `calls`.
    pub open spec fn histories_grow(self, before: Self, calls: Seq<HandlerCall>) -> bool {
        forall|n: Seq<char>|
            #[trigger] self.history_of(n) == before.history_of(n) + calls_named(calls, n)
    }

    /// Histories grown by calls and then by more calls are grown by all of them.
    proof fn lemma_histories_chain(a: Self, b: Self, c: Self, x: Seq<HandlerCall>, y: Seq<HandlerCall>)
        requires
            b.histories_grow(a, x),
            c.histories_grow(b, y),
        ensures
            c.histories_grow(a, x + y),
    {
        assert forall|n: Seq<char>| #[trigger] c.history_of(n) == a.history_of(n) + calls_named(x + y, n) by {
            lemma_calls_named_concat(x, y, n);
            assert(b.history_of(n) == a.history_of(n) + calls_named(x, n));
            assert(c.history_of(n) == b.history_of(n) + calls_named(y, n));
            assert(a.history_of(n) + calls_named(x, n) + calls_named(y, n) =~= a.history_of(n) + (
            calls_named(x, n) + calls_named(y, n)));
        }
    }

    /// Histories are unchanged by no call, where the handlers are the same.
    proof fn lemma_histories_same(a: Self, b: Self)
        requires
            a.handlers@ == b.handlers@,
            a@.names == b@.names,
        ensures
            b.histories_grow(a, Seq::empty()),
    {
        assert forall|n: Seq<char>| #[trigger] b.history_of(n) == a.history_of(n) + calls_named(Seq::empty(), n) by {
            assert(a.history_of(n) + calls_named(Seq::<HandlerCall>::empty(), n) =~= a.history_of(n));
        }
    }

    /// The handlers were called just as `calls` records: every tag whose
    /// handler differs from the one in `before` has a call among `calls`, and
    /// the history of every tag's handler has grown by exactly its calls.
    pub open spec fn changed_only_by(self, before: Self, calls: Seq<HandlerCall>) -> bool {
        &&& forall|n: Seq<char>|
            self.handler_of(n) != before.handler_of(n) ==> #[trigger] calls_for(calls, n)
        &&& self.histories_grow(before, calls)
    }

    /// A call of one handler followed by more calls changes only handlers
    /// among those called, given the state before the first call kept every
    /// handler of `a`.
    proof fn lemma_dispatch_changed(
        a: Self,
        b: Self,
        c: Self,
        d: Self,
        first: HandlerCall,
        rest: Seq<HandlerCall>,
    )
        requires
            a.handlers@ == b.handlers@,
            a@.names == b@.names,
            c.changed_only_by(b, seq![first]),
            d.changed_only_by(c, rest),
        ensures
            d.changed_only_by(a, Seq::empty().push(first) + rest),
    {
        assert(Seq::empty().push(first) =~= seq![first]);
        assert forall|n: Seq<char>| d.handler_of(n) != a.handler_of(n) implies #[trigger] calls_for(
            Seq::empty().push(first) + rest,
            n,
        ) by {
            assert(a.handler_of(n) == b.handler_of(n));
            lemma_calls_for_concat(seq![first], rest, n);
        }
        Self::lemma_histories_same(a, b);
        Self::lemma_histories_chain(b, c, d, seq![first], rest);
        Self::lemma_histories_chain(a, b, d, Seq::empty(), seq![first] + rest);
        assert(Seq::<HandlerCall>::empty() + (seq![first] + rest) =~= Seq::empty().push(first) + rest);
    }

    /// Calls that explain the handlers of `b` explain those of `c`, which are
    /// the same.
    proof fn lemma_changed_same_handlers(a: Self, b: Self, c: Self, x: Seq<HandlerCall>)
        requires
            b.changed_only_by(a, x),
            b.handlers@ == c.handlers@,
            b@.names == c@.names,
        ensures
            c.changed_only_by(a, x),
    {
        assert forall|n: Seq<char>| #[trigger] c.history_of(n) == a.history_of(n) + calls_named(x, n) by {
            assert(c.history_of(n) == b.history_of(n));
        }
        assert forall|n: Seq<char>| c.handler_of(n) != a.handler_of(n) implies #[trigger] calls_for(x, n) by {
            assert(c.handler_of(n) == b.handler_of(n));
        }
    }

    /// Changes made by calls and then by more calls are made by all of them.
    proof fn lemma_changed_chain(a: Self, b: Self, c: Self, x: Seq<HandlerCall>, y: Seq<HandlerCall>)
        requires
            b.changed_only_by(a, x),
            c.changed_only_by(b, y),
        ensures
            c.changed_only_by(a, x + y),
    {
        assert forall|n: Seq<char>| c.handler_of(n) != a.handler_of(n) implies #[trigger] calls_for(
            x + y,
            n,
        ) by {
            lemma_calls_for_concat(x, y, n);
        }
        Self::lemma_histories_chain(a, b, c, x, y);
    }

    /// A well-formed processor's view satisfies the invariant of views.
    pub proof fn lemma_view_wf(&self)
        requires
            self.wf(),
        ensures
            processor_wf(self@),
    {
    }

    /// A processor with no tags registered.
    pub fn new() -> (res: Self)
        ensures
            res.wf(),
            res@.names.len() == 0,
            res@.stack.len() == 0,
            res@.buffer.len() == 0,
            res@.markers.len() == 0,
            res@.patterns.len() == 0,
            res@.calls.len() == 0,
            forall|n: Seq<char>| res.handler_of(n) is None,
    {
        let res = TokenProcessor {
            names: Vec::new(),
            handlers: Vec::new(),
            stack: Vec::new(),
            buffer: String::new(),
            markers: Vec::new(),
            patterns: Vec::new(),
            calls: Ghost(Seq::empty()),
        };
        assert(res@.patterns =~= parsed_patterns(res@.markers));
        res
    }

    /// The index of `name` among the registered names, if it is there.
    fn find_name(&self, name: &String) -> (res: Option<usize>)
        ensures
            res matches Some(i) ==> i < self.names@.len() && self@.names[i as int] == name@,
            res is None ==> !self@.names.contains(name@),
    {
        let mut i: usize = 0;
        while i < self.names.len()
            invariant
                i <= self.names@.len(),
                forall|j: int| 0 <= j < i ==> self@.names[j] != name@,
            decreases self.names@.len() - i,
        {
            if self.names[i] == *name {
                return Some(i);
            }
            i = i + 1;
        }
        None
    }

    /// The literals to search for once `new_tag` is registered: its own two,
    /// then those of the current patterns that are not already there.
    fn markers_with(&self, new_tag: &str) -> (res: Vec<String>)
        requires
            self.wf(),
        ensures
            res.deep_view() == rebuilt_markers(new_tag@, self@.patterns),
    {
        proof {
            reveal_strlit("<");
            reveal_strlit("</");
            reveal_strlit(">");
        }
        let mut open = String::new();
        open.append("<");
        open.append(new_tag);
        open.append(">");
        let mut close = String::new();
        close.append("</");
        close.append(new_tag);
        close.append(">");
        assert(open@ =~= open_marker(new_tag@));
        assert(close@ =~= close_marker(new_tag@));
        let mut patterns_strs: Vec<String> = Vec::new();
        patterns_strs.push(open);
        patterns_strs.push(close);
        let ghost ps = self@.patterns;
        assert(patterns_strs.deep_view() =~= rebuilt_markers(new_tag@, ps.take(0)));
        let mut i: usize = 0;
        while i < self.patterns.len()
            invariant
                i <= ps.len(),
                ps == self@.patterns,
                ps.len() == self.patterns@.len(),
                patterns_strs.deep_view() == rebuilt_markers(new_tag@, ps.take(i as int)),
            decreases ps.len() - i,
        {
            proof {
                reveal_strlit("<");
                reveal_strlit("</");
                reveal_strlit(">");
            }
            let is_opening = self.patterns[i].1;
            assert(ps[i as int] == (self.patterns@[i as int].0@, is_opening));
            let mut marker = String::new();
            if is_opening {
                marker.append("<");
            } else {
                marker.append("</");
            }
            marker.append(self.patterns[i].0.as_str());
            marker.append(">");
            assert(marker@ =~= marker_of(ps[i as int]));
            let present = contains_string(&patterns_strs, &marker);
            assert(ps.take(i + 1).drop_last() =~= ps.take(i as int));
            if !present {
                patterns_strs.push(marker);
                assert(patterns_strs.deep_view() =~= rebuilt_markers(new_tag@, ps.take(i + 1)));
            }
            i = i + 1;
        }
        assert(ps.take(i as int) =~= ps);
        patterns_strs
    }

    /// Reads the literals back as patterns.
    fn parse_markers(markers: &Vec<String>) -> (res: Vec<(String, bool)>)
        requires
            forall|i: int|
                0 <= i < markers.deep_view().len() ==> well_formed_marker(
                    #[trigger] markers.deep_view()[i],
                ),
        ensures
            patterns_view(res@) == parsed_patterns(markers.deep_view()),
    {
        proof {
            reveal_strlit("</");
        }
        let ghost ms = markers.deep_view();
        let mut out: Vec<(String, bool)> = Vec::new();
        let mut idx: usize = 0;
        while idx < markers.len()
            invariant
                idx <= ms.len(),
                ms == markers.deep_view(),
                forall|i: int| 0 <= i < ms.len() ==> well_formed_marker(#[trigger] ms[i]),
                patterns_view(out@) == parsed_patterns(ms.take(idx as int)),
            decreases ms.len() - idx,
        {
            let pattern = markers[idx].as_str();
            let ghost m = ms[idx as int];
            assert(pattern@ == m);
            let len = pattern.as_bytes().len();
            proof {
                lemma_marker_bytes(m);
            }
            proof {
                reveal_strlit("</");
            }
            let ghost before = out@;
            let starts = starts_with_str(pattern, "</");
            assert("</"@ =~= seq!['<', '/']);
            assert(starts == is_close_marker(m)) by {
                if starts {
                    assert(m.subrange(0, 2)[0] == m[0]);
                    assert(m.subrange(0, 2)[1] == m[1]);
                }
                if is_close_marker(m) {
                    assert(m.subrange(0, 2) =~= seq!['<', '/']);
                }
            }
            if starts {
                proof {
                    text::lemma_char_range_bytes(m, 2, m.len() - 1);
                    encode_utf8_decode_utf8(m.subrange(2, m.len() - 1));
                }
                let tag_name = byte_range(pattern, 2, len - 1).to_owned();
                assert(tag_name@ == parse_marker(m).0);
                out.push((tag_name, false));
            } else {
                proof {
                    text::lemma_char_range_bytes(m, 1, m.len() - 1);
                    encode_utf8_decode_utf8(m.subrange(1, m.len() - 1));
                }
                let tag_name = byte_range(pattern, 1, len - 1).to_owned();
                assert(tag_name@ == parse_marker(m).0);
                out.push((tag_name, true));
            }
            assert(ms.take(idx + 1) =~= ms.take(idx as int).push(m));
            assert(out@ == before.push(out@.last()));
            assert(patterns_view(out@) =~= patterns_view(before).push(parse_marker(m)));
            assert(patterns_view(out@) =~= parsed_patterns(ms.take(idx + 1)));
            idx = idx + 1;
        }
        assert(ms.take(idx as int) =~= ms);
        out
    }

    /// Rebuilds the literals and patterns once `new_tag` is registered.
    fn rebuild_matcher(&mut self, new_tag: &str)
        requires
            old(self).wf(),
            old(self)@.names.contains(new_tag@),
            matching::automaton_builds(rebuilt_markers(new_tag@, old(self)@.patterns)),
        ensures
            final(self).wf(),
            final(self)@ == (ProcessorView {
                markers: rebuilt_markers(new_tag@, old(self)@.patterns),
                patterns: parsed_patterns(rebuilt_markers(new_tag@, old(self)@.patterns)),
                ..old(self)@
            }),
            final(self).handlers@ == old(self).handlers@,
    {
        let ghost old_view = self@;
        let patterns_strs = self.markers_with(new_tag);
        let ghost r = patterns_strs.deep_view();
        proof {
            assert(parsed_patterns(old_view.markers).take(old_view.markers.len() as int)
                =~= old_view.patterns);
            lemma_rebuilt_markers(new_tag@, old_view.markers, old_view.markers.len() as int);
            lemma_tag_markers_well_formed(new_tag@);
            assert forall|i: int| 0 <= i < r.len() implies well_formed_marker(#[trigger] r[i]) by {
                if r[i] != open_marker(new_tag@) && r[i] != close_marker(new_tag@) {
                    let w = choose|w: int|
                        0 <= w < old_view.markers.len() && old_view.markers[w] == r[i];
                    assert(well_formed_marker(old_view.markers[w]));
                }
            }
        }
        let parsed = Self::parse_markers(&patterns_strs);
        self.markers = patterns_strs;
        self.patterns = parsed;
        proof {
            let p = self@;
            assert forall|i: int|
                0 <= i < p.patterns.len() && (#[trigger] p.patterns[i]).1 implies p.names.contains(
                p.patterns[i].0,
            ) by {
                let m = r[i];
                assert(p.patterns[i] == parse_marker(m));
                if m == open_marker(new_tag@) {
                    assert(m.subrange(1, m.len() - 1) =~= new_tag@);
                } else if m == close_marker(new_tag@) {
                    assert(is_close_marker(m));
                } else {
                    let w = choose|w: int|
                        0 <= w < old_view.markers.len() && old_view.markers[w] == m;
                    assert(old_view.patterns[w] == parse_marker(m));
                }
            }
            // What is held back is still the beginning of a literal.
                    let hb = encode_utf8(p.buffer);
            if hb.len() > 0 {
                let old_pats = matching::encoded_patterns(old_view.markers);
                let i = choose|i: int| 0 <= i < old_pats.len() && #[trigger] matching::is_partial(old_pats[i], hb, 0);
                assert(r.contains(old_view.markers[i]));
                let j = choose|j: int| 0 <= j < r.len() && r[j] == old_view.markers[i];
                assert(matching::encoded_patterns(r)[j] == old_pats[i]);
                assert(matching::is_partial(matching::encoded_patterns(r)[j], hb, 0));
            }
        }
    }

    /// Registers a streaming handler for a specific tag.
    pub fn on_tag(&mut self, tag: &str, handler: H)
        requires
            old(self).wf(),
            matching::automaton_builds(rebuilt_markers(tag@, old(self)@.patterns)),
        ensures
            final(self).wf(),
            final(self)@ == after_registering(old(self)@, tag@),
            final(self).handler_of(tag@) == Some(handler),
            forall|n: Seq<char>| n != tag@ ==> final(self).handler_of(n) == old(self).handler_of(n),
    {
        let ghost names0 = self@.names;
        let ghost handlers0 = self.handlers@;
        let name = tag.to_owned();
        match self.find_name(&name) {
            Some(i) => {
                proof {
                    lemma_index_of_unique(names0, i as int);
                }
                self.handlers.set(i, handler);
            },
            None => {
                self.names.push(name);
                self.handlers.push(handler);
                proof {
                    assert(self@.names =~= old(self)@.names.push(tag@));
                    assert(self@.names[self@.names.len() - 1] == tag@);
                    assert forall|i: int, j: int|
                        0 <= i < j < self@.names.len() implies self@.names[i] != self@.names[j] by {
                        if j == self@.names.len() - 1 {
                            assert(old(self)@.names[i] == self@.names[i]);
                        } else {
                            assert(old(self)@.names[i] == self@.names[i]);
                            assert(old(self)@.names[j] == self@.names[j]);
                        }
                    }
                    assert forall|i: int|
                        0 <= i < self@.patterns.len() && (#[trigger] self@.patterns[i]).1 implies self@.names.contains(
                        self@.patterns[i].0,
                    ) by {
                        let w = choose|w: int|
                            0 <= w < old(self)@.names.len() && old(self)@.names[w]
                                == self@.patterns[i].0;
                        assert(self@.names[w] == self@.patterns[i].0);
                    }
                    assert(self@.stack == old(self)@.stack);
                    assert forall|i: int| 0 <= i < self@.stack.len() implies self@.names.contains(
                        #[trigger] self@.stack[i],
                    ) by {
                        let w = choose|w: int|
                            0 <= w < old(self)@.names.len() && old(self)@.names[w]
                                == self@.stack[i];
                        assert(self@.names[w] == self@.stack[i]);
                    }
                }
            },
        }
        assert(self@.names =~= registered(old(self)@.names, tag@)) by {
            if old(self)@.names.contains(tag@) {
            }
        }
        assert(self@.names.contains(tag@)) by {
            if !old(self)@.names.contains(tag@) {
                assert(self@.names[self@.names.len() - 1] == tag@);
            } else {
                let w = choose|w: int| 0 <= w < old(self)@.names.len() && old(self)@.names[w] == tag@;
                assert(self@.names[w] == tag@);
            }
        }
        proof {
            lemma_registered_handlers(names0, handlers0, self@.names, self.handlers@, tag@, handler);
        }
        self.rebuild_matcher(tag);
    }

    /// Registers a streaming handler for a specific tag when the literals
    /// then searched for build an automaton; otherwise leaves the processor
    /// as it is and gives back the error.
    pub fn try_on_tag(&mut self, tag: &str, handler: H) -> (res: Result<(), BuildError>)
        requires
            old(self).wf(),
        ensures
            final(self).wf(),
            res is Ok <==> matching::automaton_builds(rebuilt_markers(tag@, old(self)@.patterns)),
            res is Ok ==> final(self)@ == after_registering(old(self)@, tag@),
            res is Ok ==> final(self).handler_of(tag@) == Some(handler),
            res is Ok ==> forall|n: Seq<char>|
                n != tag@ ==> final(self).handler_of(n) == old(self).handler_of(n),
            res is Err ==> final(self)@ == old(self)@,
            res is Err ==> forall|n: Seq<char>| final(self).handler_of(n) == old(self).handler_of(n),
    {
        let markers = self.markers_with(tag);
        match build_leftmost_first(&markers) {
            Ok(()) => {
                self.on_tag(tag, handler);
                Ok(())
            },
            Err(e) => Err(e),
        }
    }

    /// Hands each token to the handler of the registered tag `parent` as
    /// data; what that handler answers is recorded and dropped.
    fn forward(&mut self, parent: &String, output: Vec<String>) -> (fwd: Ghost<Seq<HandlerCall>>)
        requires
            old(self).wf(),
            old(self)@.names.contains(parent@),
        ensures
            final(self).wf(),
            final(self)@ == (ProcessorView { calls: old(self)@.calls + fwd@, ..old(self)@ }),
            fwd@.len() == output@.len(),
            forall|j: int|
                0 <= j < fwd@.len() ==> (#[trigger] fwd@[j]).0 == parent@ && fwd@[j].1
                    == StreamEventView::Data(output.deep_view()[j]),
            final(self).handlers@.len() == old(self).handlers@.len(),
            final(self).changed_only_by(*old(self), fwd@),
    {
        let ghost p0 = self@;
        let ghost toks = output.deep_view();
        let ghost mut fwd: Seq<HandlerCall> = Seq::empty();
        let mut i: usize = 0;
        while i < output.len()
            invariant
                i <= toks.len(),
                toks == output.deep_view(),
                self.wf(),
                self@.names.contains(parent@),
                self@ == (ProcessorView { calls: p0.calls + fwd, ..p0 }),
                fwd.len() == i,
                forall|j: int|
                    0 <= j < i ==> (#[trigger] fwd[j]).0 == parent@ && fwd[j].1
                        == StreamEventView::Data(toks[j]),
                self.handlers@.len() == old(self).handlers@.len(),
                self.changed_only_by(*old(self), fwd),
            decreases toks.len() - i,
        {
            let token = output[i].clone();
            let ghost t = token@;
            let ghost mid = *self;
            let answer = self.call_handler(parent, TagStreamEvent::Data(token));
            proof {
                let c = (parent@, StreamEventView::Data(t), answer.deep_view());
                assert(self@.calls =~= p0.calls + fwd.push(c));
                Self::lemma_changed_chain(*old(self), mid, *self, fwd, seq![c]);
                assert(fwd.push(c) =~= fwd + seq![c]);
                fwd = fwd.push(c);
            }
            i = i + 1;
        }
        Ghost(fwd)
    }

    /// Sends a handler's answer on: to the enclosing tag's handler `parent`
    /// when there is one, else to `result`.
    fn route_answer(&mut self, output: Vec<String>, parent: Option<String>, result: &mut Vec<String>) -> (fwd: Ghost<Seq<HandlerCall>>)
        requires
            old(self).wf(),
            parent matches Some(p) ==> old(self)@.names.contains(p@),
        ensures
            final(self).wf(),
            final(self)@ == (ProcessorView { calls: old(self)@.calls + fwd@, ..old(self)@ }),
            final(self).handlers@.len() == old(self).handlers@.len(),
            final(self).changed_only_by(*old(self), fwd@),
            match parent {
                Some(p) => {
                    &&& fwd@.len() == output@.len()
                    &&& forall|j: int|
                        0 <= j < fwd@.len() ==> (#[trigger] fwd@[j]).0 == p@ && fwd@[j].1
                            == StreamEventView::Data(output.deep_view()[j])
                    &&& final(result).deep_view() == old(result).deep_view()
                },
                None => {
                    &&& fwd@.len() == 0
                    &&& final(result).deep_view() == old(result).deep_view() + output.deep_view()
                },
            },
    {
        if !output.is_empty() {
            match parent {
                Some(p) => self.forward(&p, output),
                None => {
                    let mut out = output;
                    let ghost before = result.deep_view();
                    let ghost toks = out.deep_view();
                    result.append(&mut out);
                    assert(result.deep_view() =~= before + toks);
                    assert(self@.calls =~= old(self)@.calls + Seq::<HandlerCall>::empty());
                    Ghost(Seq::empty())
                },
            }
        } else {
            assert(output.deep_view() =~= seq![]);
            assert(result.deep_view() =~= old(result).deep_view() + output.deep_view());
            assert(self@.calls =~= old(self)@.calls + Seq::<HandlerCall>::empty());
            Ghost(Seq::empty())
        }
    }

    /// The name of the enclosing tag of the innermost open tag, if any.
    fn parent_name(&self) -> (res: Option<String>)
        requires
            self.wf(),
        ensures
            res matches Some(p) ==> self@.stack.len() > 1 && p@ == self@.stack[self@.stack.len()
                - 2] && self@.names.contains(p@),
            res is None ==> self@.stack.len() <= 1,
    {
        if self.stack.len() > 1 {
            let parent_idx = self.stack.len() - 2;
            let ghost sv = self@.stack;
            assert(sv[parent_idx as int] == self.stack@[parent_idx as int].name@);
            Some(self.stack[parent_idx].name.clone())
        } else {
            None
        }
    }

    /// Dispatches one event found in the buffer: handler calls for events
    /// inside tags, text to `result` outside them. Gives back the calls made.
    fn dispatch_event(&mut self, event: &Event, result: &mut Vec<String>) -> (blk: Ghost<
        Seq<HandlerCall>,
    >)
        requires
            old(self).wf(),
            event@ matches ScanEvent::OpenTag(n) ==> old(self)@.names.contains(n),
        ensures
            final(self).wf(),
            final(self)@.names == old(self)@.names,
            final(self)@.markers == old(self)@.markers,
            final(self)@.patterns == old(self)@.patterns,
            final(self)@.buffer == old(self)@.buffer,
            final(self)@.stack == dispatch(old(self)@.stack, event@).1,
            step_fits(dispatch(old(self)@.stack, event@).0, blk@),
            final(self)@.calls == old(self)@.calls + blk@,
            final(self).changed_only_by(*old(self), blk@),
            final(result).deep_view() == old(result).deep_view() + step_output(
                dispatch(old(self)@.stack, event@).0,
                blk@,
            ),
    {
        let ghost st = self@.stack;
        match event {
            Event::Text(text) => {
                if self.stack.len() > 0 {
                    // Inside a tag: stream the text as data to its handler.
                    let top = self.stack.len() - 1;
                    let frame_name = self.stack[top].name.clone();
                    assert(frame_name@ == st.last());
                    let ghost s1 = *self;
                    let output = self.call_handler(&frame_name, TagStreamEvent::Data(text.clone()));
                    let ghost s2 = *self;
                    let ghost c0 = (frame_name@, StreamEventView::Data(text@), output.deep_view());
                    let ghost o = output.deep_view();
                    let parent = self.parent_name();
                    let fwd = self.route_answer(output, parent, result);
                    proof {
                        Self::lemma_dispatch_changed(*old(self), s1, s2, *self, c0, fwd@);
                        let b = seq![c0] + fwd@;
                        assert(self@.calls =~= old(self)@.calls + b);
                        assert(b[0] == c0);
                        assert forall|j: int| 0 <= j < b.len() - 1 implies b[1 + j] == fwd@[j] by {}
                        if parent is None {
                            assert(result.deep_view() =~= old(result).deep_view() + o);
                        }
                    }
                    Ghost(Seq::empty().push(c0) + fwd@)
                } else {
                    // Outside any tag, this is plain output.
                    let ghost before = result.deep_view();
                    result.push(text.clone());
                    assert(result.deep_view() =~= before + seq![text@]);
                    assert(self@.calls =~= old(self)@.calls + Seq::<HandlerCall>::empty());
                    Ghost(Seq::empty())
                }
            },
            Event::OpenTag(tag_name) => {
                let ghost n = tag_name@;
                self.stack.push(Frame { name: tag_name.clone() });
                proof {
                    assert(self@.stack =~= st.push(n));
                    assert forall|i: int| 0 <= i < self@.stack.len() implies self@.names.contains(
                        #[trigger] self@.stack[i],
                    ) by {
                        if i < st.len() {
                            assert(self@.stack[i] == st[i]);
                        }
                    }
                }
                let ghost s1 = *self;
                let output = self.call_handler(tag_name, TagStreamEvent::Open);
                let ghost s2 = *self;
                let ghost c0 = (n, StreamEventView::Open, output.deep_view());
                let ghost o = output.deep_view();
                let parent = self.parent_name();
                let fwd = self.route_answer(output, parent, result);
                proof {
                    Self::lemma_dispatch_changed(*old(self), s1, s2, *self, c0, fwd@);
                    let b = seq![c0] + fwd@;
                    assert(self@.calls =~= old(self)@.calls + b);
                    assert(b[0] == c0);
                    assert forall|j: int| 0 <= j < b.len() - 1 implies b[1 + j] == fwd@[j] by {}
                    if parent is None {
                        assert(result.deep_view() =~= old(result).deep_view() + o);
                    }
                }
                Ghost(Seq::empty().push(c0) + fwd@)
            },
            Event::CloseTag(tag_name) => {
                if self.stack.len() > 0 {
                    let top = self.stack.len() - 1;
                    assert(self.stack@[top as int].name@ == st.last());
                    if self.stack[top].name == *tag_name {
                        // Closing the innermost open tag.
                        let parent = self.parent_name();
                        let _ = self.stack.pop();
                        proof {
                            assert(self@.stack =~= st.drop_last());
                            assert(old(self)@.names.contains(st[st.len() - 1]));
                            assert forall|i: int|
                                0 <= i < self@.stack.len() implies self@.names.contains(
                                #[trigger] self@.stack[i],
                            ) by {
                                assert(self@.stack[i] == st[i]);
                            }
                        }
                        let ghost s1 = *self;
                        let output = self.call_handler(tag_name, TagStreamEvent::Close);
                        let ghost s2 = *self;
                        let ghost c0 = (tag_name@, StreamEventView::Close, output.deep_view());
                        let ghost o = output.deep_view();
                        let fwd = self.route_answer(output, parent, result);
                        proof {
                            Self::lemma_dispatch_changed(*old(self), s1, s2, *self, c0, fwd@);
                            let b = seq![c0] + fwd@;
                            assert(self@.calls =~= old(self)@.calls + b);
                            assert(b[0] == c0);
                            assert forall|j: int| 0 <= j < b.len() - 1 implies b[1 + j] == fwd@[j] by {}
                            if parent is None {
                                assert(result.deep_view() =~= old(result).deep_view() + o);
                            }
                        }
                        Ghost(Seq::empty().push(c0) + fwd@)
                    } else {
                        // Mismatched closing tag: text for the innermost tag's handler.
                        let placeholder_text = Self::closing_text(tag_name);
                        let ghost t = placeholder_text@;
                        let frame_name = self.stack[top].name.clone();
                        let answer = self.call_handler(&frame_name, TagStreamEvent::Data(placeholder_text));
                        let ghost c0 = (frame_name@, StreamEventView::Data(t), answer.deep_view());
                        assert(self@.calls =~= old(self)@.calls + seq![c0]);
                        proof {
                            assert forall|n: Seq<char>| self.handler_of(n) != old(self).handler_of(n) implies #[trigger] calls_for(seq![c0], n) by {
                                assert(seq![c0][0] == c0);
                            }
                        }
                        assert(result.deep_view() =~= old(result).deep_view() + seq![]);
                        let ghost b = seq![c0];
                        Ghost(b)
                    }
                } else {
                    // Closing tag without an opening tag: plain text.
                    let placeholder_text = Self::closing_text(tag_name);
                    let ghost before = result.deep_view();
                    let ghost t = placeholder_text@;
                    result.push(placeholder_text);
                    assert(result.deep_view() =~= before + seq![t]);
                    assert(self@.calls =~= old(self)@.calls + Seq::<HandlerCall>::empty());
                    Ghost(Seq::empty())
                }
            },
        }
    }

    /// Adds `raw` to the buffer, collects the events of the settled tag
    /// literals and of the text no literal can still claim, and keeps the
    /// rest of the buffer.
    fn scan_buffer(&mut self, raw: &str) -> (events: Vec<Event>)
        requires
            old(self).wf(),
        ensures
            final(self).wf(),
            final(self)@ == (ProcessorView { buffer: feed_scan(old(self)@, raw@).1, ..old(self)@ }),
            final(self).handlers@ == old(self).handlers@,
            events@.map_values(|e: Event| e@) == feed_scan(old(self)@, raw@).0,
    {
        let ghost p0 = self@;
        self.buffer.append(raw);
        let ghost b1 = self.buffer@;
        let ghost h = encode_utf8(b1);
        let ghost pats = matching::encoded_patterns(p0.markers);
        let ghost scanned = feed_scan(p0, raw@);
        let mut events: Vec<Event> = Vec::new();
        // Phase 1: find the settled tag literals and collect events.
        {
            let buf = self.buffer.as_str();
            assert(buf.spec_bytes() == h);
            proof {
                encode_utf8_valid_utf8(b1);
                lemma_markers_nonempty(p0);
                matching::lemma_settled(p0.markers, h);
            }
            let (found, hold) = match matching::settle(&self.markers, buf) {
                Ok(r) => r,
                Err(_) => {
                    proof {
                        assert(false);
                    }
                    (Vec::new(), 0)
                },
            };
            let ghost m = matching::matches_view(found@);
            assert(m == matching::settled_matches(pats, h));
            let mut cursor: usize = 0;
            let mut k: usize = 0;
            assert(m.take(0) =~= seq![]);
            while k < found.len()
                invariant
                    processor_wf(p0),
                    self.handlers@.len() == self.names@.len(),
                    self.handlers@ == old(self).handlers@,
                    self@ == (ProcessorView { buffer: b1, ..p0 }),
                    buf@ == b1,
                    h == buf.spec_bytes(),
                    valid_utf8(h),
                    pats == matching::encoded_patterns(p0.markers),
                    forall|i: int| 0 <= i < p0.markers.len() ==> well_formed_marker(#[trigger] p0.markers[i]),
                    m == matching::matches_view(found@),
                    matching::matches_wf(pats, h, m, 0),
                    k <= m.len(),
                    events@.map_values(|e: Event| e@) == scan_events(p0.patterns, h, m.take(k as int)),
                    cursor == matching::end_of_matches(m.take(k as int)),
                    cursor <= h.len(),
                    is_char_boundary(h, cursor as int),
                    k > 0 ==> cursor == m[k - 1].1,
                decreases m.len() - k,
            {
                let (start, end, pattern_id) = found[k];
                assert(m[k as int] == (start as int, end as int, pattern_id as int));
                let ghost pat = pats[pattern_id as int];
                proof {
                    encode_utf8_valid_utf8(p0.markers[pattern_id as int]);
                    assert(h.subrange(start as int, start + pat.len()) == pat);
                    text::lemma_occurrence_boundaries(h, pat, start as int);
                    if k > 0 {
                        assert(m[k - 1].1 <= m[k as int].0);
                    }
                }
                let ghost next = m.take(k + 1);
                assert(next.drop_last() =~= m.take(k as int));
                assert(next.last() == m[k as int]);
                // Text before the match.
                if start > cursor {
                    let text_slice = byte_range(buf, cursor, start);
                    events.push(Event::Text(text_slice.to_owned()));
                }
                // The match itself: an opening or closing tag.
                let is_opening = self.patterns[pattern_id].1;
                let tag_name = self.patterns[pattern_id].0.clone();
                assert(p0.patterns[pattern_id as int] == (tag_name@, is_opening));
                if is_opening {
                    events.push(Event::OpenTag(tag_name));
                } else {
                    events.push(Event::CloseTag(tag_name));
                }
                cursor = end;
                assert(events@.map_values(|e: Event| e@) =~= scan_events(p0.patterns, h, next));
                k = k + 1;
            }
            assert(m.take(k as int) =~= m);
            // Text that no tag literal can still claim goes out now.
            if hold > cursor {
                let text_slice = byte_range(buf, cursor, hold);
                events.push(Event::Text(text_slice.to_owned()));
            }
            assert(events@.map_values(|e: Event| e@) =~= scanned.0);
            // The rest might still become a tag literal: hold it back.
            let total = buf.as_bytes().len();
            proof {
                is_char_boundary_start_end_of_seq(h);
            }
            let rest = byte_range(buf, hold, total).to_owned();
            self.buffer = rest;
        }
        proof {
            lemma_rescanned_holds(p0, raw@);
            assert(self@ == rescanned(p0, raw@));
        }
        events
    }

    /// Processes the next incoming token string; returns any "outside-tag"
    /// text immediately. Text that could still be the start of a tag literal
    /// is held back until the next token shows what it is.
    pub fn feed(&mut self, raw: &str) -> (res: Vec<String>)
        requires
            old(self).wf(),
        ensures
            final(self).wf(),
            feed_spec(old(self)@, raw@, final(self)@, res.deep_view()),
            final(self).changed_only_by(
                *old(self),
                final(self)@.calls.subrange(old(self)@.calls.len() as int, final(self)@.calls.len() as int),
            ),
    {
        let ghost p0 = self@;
        let ghost s_start = *self;
        let ghost scanned = feed_scan(p0, raw@);
        let events = self.scan_buffer(raw);
        assert(self@ == (ProcessorView { buffer: scanned.1, ..p0 }));
        proof {
            lemma_feed_scan_registered(p0, raw@);
            assert(self.changed_only_by(s_start, Seq::<HandlerCall>::empty()));
        }
        // Phase 2: dispatch the events.
        let ghost planned = plan(p0.stack, scanned.0);
        let ghost p1 = self@;
        let mut result: Vec<String> = Vec::new();
        let ghost mut blocks: Seq<Seq<HandlerCall>> = Seq::empty();
        let mut i: usize = 0;
        assert(scanned.0.take(0) =~= seq![]);
        assert(result.deep_view() =~= seq![]);
        assert(p0.calls + flatten(blocks) =~= p0.calls);
        while i < events.len()
            invariant
                self.wf(),
                i <= events@.len(),
                events@.map_values(|e: Event| e@) == scanned.0,
                opens_registered(scanned.0, p0.names),
                self@.names == p0.names,
                self@.markers == p0.markers,
                self@.patterns == p0.patterns,
                self@.buffer == p1.buffer,
                self@.stack == plan(p0.stack, scanned.0.take(i as int)).1,
                fits(plan(p0.stack, scanned.0.take(i as int)).0, blocks),
                result.deep_view() == assemble(plan(p0.stack, scanned.0.take(i as int)).0, blocks),
                self@.calls == p0.calls + flatten(blocks),
                self.changed_only_by(s_start, flatten(blocks)),
            decreases events@.len() - i,
        {
            assert(events@[i as int]@ == scanned.0[i as int]);
            let ghost prefix = scanned.0.take(i as int);
            let ghost next = scanned.0.take(i + 1);
            assert(next.drop_last() =~= prefix);
            assert(next.last() == scanned.0[i as int]);
            let ghost mid = *self;
            let blk = self.dispatch_event(&events[i], &mut result);
            proof {
                Self::lemma_changed_chain(s_start, mid, *self, flatten(blocks), blk@);
                let steps = plan(p0.stack, next).0;
                let prev_steps = plan(p0.stack, prefix).0;
                assert(steps =~= prev_steps.push(dispatch(plan(p0.stack, prefix).1, scanned.0[i as int]).0));
                lemma_assemble_push(prev_steps, blocks, steps.last(), blk@);
                assert(self@.calls =~= p0.calls + flatten(blocks.push(blk@)));
                blocks = blocks.push(blk@);
            }
            i = i + 1;
        }
        assert(scanned.0.take(i as int) =~= scanned.0);
        assert(self@.calls.subrange(p0.calls.len() as int, self@.calls.len() as int) =~= flatten(blocks));
        result
    }

    /// Processes any remaining buffered text after the stream ends, and
    /// closes every tag still open, innermost first.
    #[verifier::rlimit(60)]
    pub fn finish(&mut self) -> (res: Vec<String>)
        requires
            old(self).wf(),
        ensures
            final(self).wf(),
            finish_spec(old(self)@, final(self)@, res.deep_view()),
            final(self).changed_only_by(
                *old(self),
                final(self)@.calls.subrange(old(self)@.calls.len() as int, final(self)@.calls.len() as int),
            ),
    {
        let ghost p0 = self@;
        let ghost s_start = *self;
        let ghost steps = finish_steps(p0);
        let mut result: Vec<String> = Vec::new();
        let ghost mut blocks: Seq<Seq<HandlerCall>> = Seq::empty();
        let ghost mut done: Seq<Step> = Seq::empty();
        assert(result.deep_view() =~= assemble(done, blocks));
        assert(self@.calls =~= p0.calls + flatten(blocks));
        if !self.buffer.as_str().is_empty() {
            // The rest of the text is handed out once: take it.
            let mut taken = String::new();
            std::mem::swap(&mut taken, &mut self.buffer);
            if !self.stack.is_empty() {
                // Inside a tag: the rest is data for the innermost handler.
                let top = self.stack.len() - 1;
                let frame_name = self.stack[top].name.clone();
                assert(frame_name@ == p0.stack.last());
                let ghost mid = *self;
                let mut output = self.call_handler(&frame_name, TagStreamEvent::Data(taken));
                let ghost b = seq![(frame_name@, StreamEventView::Data(p0.buffer), output.deep_view())];
                let ghost a = output.deep_view();
                result.append(&mut output);
                proof {
                    assert(mid.changed_only_by(s_start, flatten(blocks)));
                    Self::lemma_changed_chain(s_start, mid, *self, flatten(blocks), b);
                    lemma_assemble_push(done, blocks, steps[0], b);
                    done = done.push(steps[0]);
                    blocks = blocks.push(b);
                    assert(result.deep_view() =~= assemble(done, blocks));
                    assert(self@.calls =~= p0.calls + flatten(blocks));
                }
            } else {
                // Outside any tag: the rest is plain text.
                result.push(taken);
                proof {
                    lemma_assemble_push(done, blocks, steps[0], seq![]);
                    done = done.push(steps[0]);
                    blocks = blocks.push(seq![]);
                    assert(result.deep_view() =~= assemble(done, blocks));
                    assert(self@.calls =~= p0.calls + flatten(blocks));
                }
            }
        }
        assert(self@.buffer =~= Seq::<char>::empty());
        let ghost first = done.len();
        assert(steps.take(first as int) =~= done);
        // Close every tag still open, innermost first.
        let mut unclosed_tags: Vec<String> = Vec::new();
        while self.stack.len() > 0
            invariant
                self.wf(),
                self@.names == p0.names,
                self@.markers == p0.markers,
                self@.patterns == p0.patterns,
                self@.calls == p0.calls + flatten(blocks),
                self.changed_only_by(s_start, flatten(blocks)),
                self@.buffer.len() == 0,
                self@.stack == p0.stack.take(p0.stack.len() - unclosed_tags@.len()),
                unclosed_tags@.len() <= p0.stack.len(),
                forall|i: int|
                    0 <= i < unclosed_tags@.len() ==> (#[trigger] unclosed_tags@[i])@
                        == p0.stack[p0.stack.len() - 1 - i],
            decreases self@.stack.len(),
        {
            let ghost before = self@.stack;
            let ghost before_pop = *self;
            let ghost n = unclosed_tags@.len();
            let frame = self.stack.pop().unwrap();
            proof {
                Self::lemma_changed_same_handlers(s_start, before_pop, *self, flatten(blocks));
            }
            assert(frame.name@ == before.last());
            assert(before.last() == p0.stack[p0.stack.len() - 1 - n]);
            unclosed_tags.push(frame.name);
            assert(self@.stack =~= p0.stack.take(p0.stack.len() - unclosed_tags@.len()));
        }
        let mut i: usize = 0;
        while i < unclosed_tags.len()
            invariant
                self.wf(),
                self@.names == p0.names,
                self@.markers == p0.markers,
                self@.patterns == p0.patterns,
                self@.stack.len() == 0,
                self@.buffer.len() == 0,
                unclosed_tags@.len() == p0.stack.len(),
                forall|k: int|
                    0 <= k < unclosed_tags@.len() ==> (#[trigger] unclosed_tags@[k])@
                        == p0.stack[p0.stack.len() - 1 - k],
                forall|k: int| 0 <= k < p0.stack.len() ==> p0.names.contains(#[trigger] p0.stack[k]),
                i <= unclosed_tags@.len(),
                steps == finish_steps(p0),
                first + p0.stack.len() == steps.len(),
                done == steps.take(first + i),
                fits(done, blocks),
                result.deep_view() == assemble(done, blocks),
                self@.calls == p0.calls + flatten(blocks),
                self.changed_only_by(s_start, flatten(blocks)),
            decreases unclosed_tags@.len() - i,
        {
            let tag_name = unclosed_tags[i].clone();
            assert(p0.names.contains(p0.stack[p0.stack.len() - 1 - i]));
            let ghost mid = *self;
            let mut output = self.call_handler(&tag_name, TagStreamEvent::Close);
            let ghost b = seq![(tag_name@, StreamEventView::Close, output.deep_view())];
            result.append(&mut output);
            proof {
                let s = steps[first + i];
                Self::lemma_changed_chain(s_start, mid, *self, flatten(blocks), b);
                assert(s == Step::Call(p0.stack[p0.stack.len() - 1 - i], StreamEventView::Close, Route::Output));
                lemma_assemble_push(done, blocks, s, b);
                assert(steps.take(first + i + 1) =~= done.push(s));
                done = done.push(s);
                blocks = blocks.push(b);
                assert(result.deep_view() =~= assemble(done, blocks));
                assert(self@.calls =~= p0.calls + flatten(blocks));
            }
            i = i + 1;
        }
        assert(done =~= steps);
        assert(self@.calls.subrange(p0.calls.len() as int, self@.calls.len() as int) =~= flatten(blocks));
        assert(self@.stack =~= Seq::<Seq<char>>::empty());
        assert(self@.buffer =~= Seq::<char>::empty());
        result
    }

    /// The names of the tags still open, outermost first.
    pub fn open_tags(&self) -> (res: Vec<String>)
        requires
            self.wf(),
        ensures
            res.deep_view() == self@.stack,
    {
        let mut names: Vec<String> = Vec::new();
        let mut i: usize = 0;
        while i < self.stack.len()
            invariant
                i <= self.stack@.len(),
                names.deep_view() == self@.stack.take(i as int),
            decreases self.stack@.len() - i,
        {
            let ghost before = names.deep_view();
            assert(self@.stack[i as int] == self.stack@[i as int].name@);
            names.push(self.stack[i].name.clone());
            assert(names.deep_view() =~= before.push(self@.stack[i as int]));
            assert(names.deep_view() =~= self@.stack.take(i + 1));
            i = i + 1;
        }
        assert(self@.stack.take(i as int) =~= self@.stack);
        names
    }

    /// `</name>`
    fn closing_text(name: &String) -> (res: String)
        ensures
            res@ == close_marker(name@),
    {
        proof {
            reveal_strlit("</");
            reveal_strlit(">");
        }
        let mut text = String::new();
        text.append("</");
        text.append(name.as_str());
        text.append(">");
        assert(text@ =~= close_marker(name@));
        text
    }

    /// The index of the name `name`, which is registered.
    fn handler_index(&self, name: &String) -> (res: usize)
        requires
            self@.names.contains(name@),
            self.handlers@.len() == self.names@.len(),
        ensures
            res < self.names@.len(),
            self@.names[res as int] == name@,
    {
        let mut i: usize = 0;
        while i < self.names.len()
            invariant
                i <= self.names@.len(),
                self@.names.contains(name@),
                forall|j: int| 0 <= j < i ==> self@.names[j] != name@,
            decreases self.names@.len() - i,
        {
            if self.names[i] == *name {
                return i;
            }
            i = i + 1;
        }
        proof {
            let w = choose|w: int| 0 <= w < self@.names.len() && self@.names[w] == name@;
            assert(self@.names[w] == name@);
        }
        0
    }

    /// Calls the handler of the registered tag `name` with `event`, and
    /// records the call with the handler's answer.
    fn call_handler(&mut self, name: &String, event: TagStreamEvent) -> (out: Vec<String>)
        requires
            old(self).wf(),
            old(self)@.names.contains(name@),
        ensures
            final(self).wf(),
            final(self)@ == (ProcessorView {
                calls: old(self)@.calls.push((name@, event@, out.deep_view())),
                ..old(self)@
            }),
            final(self).handlers@.len() == old(self).handlers@.len(),
            forall|n: Seq<char>| n != name@ ==> final(self).handler_of(n) == old(self).handler_of(n),
            final(self).changed_only_by(*old(self), seq![(name@, event@, out.deep_view())]),
            final(self).histories_grow(*old(self), seq![(name@, event@, out.deep_view())]),
    {
        let ghost ev = event@;
        let i = self.handler_index(name);
        let out = self.handlers[i].handle(event);
        self.calls = Ghost(self.calls@.push((name@, ev, out.deep_view())));
        proof {
            assert forall|n: Seq<char>| n != name@ implies self.handler_of(n) == old(self).handler_of(n) by {
                if self@.names.contains(n) {
                    let j = self@.names.index_of(n);
                    assert(self@.names[j] == n);
                    assert(j != i);
                }
            }
            let c = seq![(name@, ev, out.deep_view())];
            assert(c[0].0 == name@);
            assert(calls_for(c, name@));
            assert(c.drop_last() =~= Seq::<HandlerCall>::empty());
            assert(c.last() == c[0]);
            assert forall|n: Seq<char>| #[trigger] self.history_of(n) == old(self).history_of(n) + calls_named(c, n) by {
                assert(calls_named(c.drop_last(), n) =~= Seq::<(StreamEventView, Seq<Seq<char>>)>::empty());
                if n == name@ {
                    assert(self@.names[i as int] == n);
                    lemma_index_of_unique(self@.names, i as int);
                    assert(calls_named(c, n) =~= seq![(ev, out.deep_view())]);
                } else {
                    assert(calls_named(c, n) =~= Seq::<(StreamEventView, Seq<Seq<char>>)>::empty());
                    assert(old(self).history_of(n) + calls_named(c, n) =~= old(self).history_of(n));
                }
            }
        }
        out
    }
}

} // verus!
