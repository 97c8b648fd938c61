//! A streaming scanner that splits text into raw chunks and tag events.
use vstd::prelude::*;
use vstd::string::StringSliceAdditionalSpecFns;
use vstd::utf8::*;

use aho_corasick::BuildError;

use crate::matching::{self, build_leftmost_first};
use crate::text::{self, byte_range, trim_end_matches_char, trim_start_matches_char};

verus! {

/// What a `Tag` holds, as character sequences.
#[verifier::ext_equal]
pub struct TagView {
    pub name: Seq<char>,
    pub open: Seq<char>,
    pub close: Seq<char>,
}

/// Represents a pair of opening and closing tags.
#[derive(Debug, PartialEq, Eq)]
pub struct Tag {
    name: String,
    open: String,
    close: String,
}

impl Tag {
    /// A closing tag is never empty.
    #[verifier::type_invariant]
    spec fn close_nonempty(self) -> bool {
        self.close@.len() > 0
    }
}

impl View for Tag {
    type V = TagView;

    closed spec fn view(&self) -> TagView {
        TagView { name: self.name@, open: self.open@, close: self.close@ }
    }
}

/// The name of a tag written as `open`: `open` without its leading `<`
/// characters and then without its trailing `>` characters.
pub open spec fn tag_name_of(open: Seq<char>) -> Seq<char> {
    text::trim_end_char(text::trim_start_char(open, '<'), '>')
}

/// The closing tag that goes with a tag named `name`: `</name>`.
pub open spec fn closing_of(name: Seq<char>) -> Seq<char> {
    seq!['<', '/'] + name + seq!['>']
}

/// The tag that `Tag::new(open)` builds.
pub open spec fn tag_for(open: Seq<char>) -> TagView {
    TagView { name: tag_name_of(open), open: open, close: closing_of(tag_name_of(open)) }
}

impl Clone for Tag {
    fn clone(&self) -> (res: Self)
        ensures
            res@ == self@,
    {
        proof {
            use_type_invariant(self);
        }
        Tag { name: self.name.clone(), open: self.open.clone(), close: self.close.clone() }
    }
}

impl Tag {
    /// The tag as it is written in text: its opening literal.
    pub fn to_string(&self) -> (res: String)
        ensures
            res@ == self@.open,
    {
        self.open.clone()
    }

    /// Builds the tag pair for an opening tag such as `<think>`: its name is
    /// the text between the angle brackets and its closing tag is `</name>`.
    pub fn new(open: &str) -> (res: Self)
        ensures
            res@ == tag_for(open@),
            res@.open == open@,
            res@.name == text::trim_end_char(text::trim_start_char(open@, '<'), '>'),
            res@.close == seq!['<', '/'] + res@.name + seq!['>'],
    {
        let open_string: String = open.to_owned();
        let text_between_angle_brackets = trim_end_matches_char(
            trim_start_matches_char(open, '<'),
            '>',
        );
        proof {
            reveal_strlit("</");
            reveal_strlit(">");
        }
        let mut close = String::new();
        close.append("</");
        close.append(text_between_angle_brackets);
        close.append(">");
        assert(close@ =~= closing_of(text_between_angle_brackets@));
        Tag { name: text_between_angle_brackets.to_owned(), open: open_string, close }
    }
}

/// An event emitted by the `Scanner`.
#[derive(Debug, Clone, PartialEq, Eq)]
pub enum Event {
    Open(Tag),
    Close(Tag),
    Raw(String),
}

/// What an `Event` holds.
pub enum EventView {
    Open(TagView),
    Close(TagView),
    Raw(Seq<char>),
}

impl View for Event {
    type V = EventView;

    open spec fn view(&self) -> EventView {
        match self {
            Event::Open(t) => EventView::Open(t@),
            Event::Close(t) => EventView::Close(t@),
            Event::Raw(s) => EventView::Raw(s@),
        }
    }
}

/// The views of a sequence of events.
pub open spec fn events_view(events: Seq<Event>) -> Seq<EventView> {
    events.map_values(|e: Event| e@)
}

/// Errors that can occur when using `Scanner`.
#[derive(Debug)]
pub enum ScannerError {
    /// Error during Aho-Corasick automaton construction.
    AhoCorasickBuildError(BuildError),
    /// Buffer exceeded max_buffer size without finding a match end.
    BufferOverflow(usize),
}

impl From<BuildError> for ScannerError {
    fn from(e: BuildError) -> (res: Self) {
        ScannerError::AhoCorasickBuildError(e)
    }
}

impl vstd::std_specs::convert::FromSpecImpl<BuildError> for ScannerError {
    open spec fn obeys_from_spec() -> bool {
        true
    }

    open spec fn from_spec(e: BuildError) -> Self {
        ScannerError::AhoCorasickBuildError(e)
    }
}

/// What a `Scanner` holds: its tags, the text it keeps back, its buffer limit
/// in bytes and how many tags it counts as open.
#[verifier::ext_equal]
pub struct ScannerView {
    pub tags: Seq<TagView>,
    pub buffer: Seq<char>,
    pub max_buffer: nat,
    pub pending: nat,
}

/// The literals searched for, each with the index of its tag and whether it
/// opens the tag: for each tag in order, its opening literal unless that is
/// empty (an empty literal marks no place in a text), then its closing one.
pub open spec fn searched(tags: Seq<TagView>) -> Seq<(Seq<char>, int, bool)>
    decreases tags.len(),
{
    if tags.len() == 0 {
        seq![]
    } else {
        let n = tags.len() - 1;
        let t = tags.last();
        searched(tags.drop_last()) + (if t.open.len() > 0 {
            seq![(t.open, n, true)]
        } else {
            seq![]
        }) + seq![(t.close, n, false)]
    }
}

/// The literals searched for, in the order of `searched`.
pub open spec fn tag_patterns(tags: Seq<TagView>) -> Seq<Seq<char>> {
    searched(tags).map_values(|e: (Seq<char>, int, bool)| e.0)
}

/// The tag written as `open` keeps `open` as its opening literal, and its
/// closing literal is `<`, `/`, its name and `>`, whatever the name.
pub proof fn lemma_tag_literals(open: Seq<char>)
    ensures
        tag_for(open).open == open,
        tag_for(open).close == seq!['<', '/'] + tag_for(open).name + seq!['>'],
        tag_for(open).close.len() == tag_for(open).name.len() + 3,
        tag_for(open).close.last() == '>',
{
}

/// The name of the tag written as `open` is what lies between the leading
/// `<` characters of `open` and its trailing `>` characters: it neither
/// starts with `<` nor ends with `>`, and `open` is some `<`s, the name and
/// some `>`s.
pub proof fn lemma_tag_name(open: Seq<char>)
    ensures
        ({
            let n = tag_for(open).name;
            let a = open.len() - text::trim_start_char(open, '<').len();
            &&& 0 <= a && a + n.len() <= open.len()
            &&& forall|i: int| 0 <= i < a ==> open[i] == '<'
            &&& open.subrange(a, a + n.len()) == n
            &&& forall|i: int| a + n.len() <= i < open.len() ==> open[i] == '>'
            &&& n.len() > 0 ==> n[0] != '<' && n[n.len() - 1] != '>'
        }),
{
    let u = text::trim_start_char(open, '<');
    text::lemma_trim_start_char(open, '<');
    text::lemma_trim_end_char(u, '>');
    let n = tag_for(open).name;
    let a = open.len() - u.len();
    assert(n == text::trim_end_char(u, '>'));
    assert(open.subrange(a, a + n.len()) =~= n) by {
        assert forall|i: int| 0 <= i < n.len() implies open.subrange(a, a + n.len())[i] == n[i] by {
            assert(n[i] == u[i]);
            assert(u[i] == open[a + i]);
        }
    }
    assert forall|i: int| a + n.len() <= i < open.len() implies open[i] == '>' by {
        assert(u[i - a] == open[i]);
    }
    if n.len() > 0 {
        assert(n[0] == u[0]);
    }
}

/// The closing literal of the `i`-th tag is searched for, marked with `i`
/// as a closing one.
pub open spec fn searches_close(tags: Seq<TagView>, i: int) -> bool {
    exists|k: int| 0 <= k < searched(tags).len() && searched(tags)[k] == (tags[i].close, i, false)
}

/// The opening literal of the `i`-th tag is searched for, marked with `i`
/// as an opening one.
pub open spec fn searches_open(tags: Seq<TagView>, i: int) -> bool {
    exists|k: int| 0 <= k < searched(tags).len() && searched(tags)[k] == (tags[i].open, i, true)
}

/// Every tag's closing literal is searched for, and so is its opening
/// literal unless that is empty, each marked with the tag's index and
/// whether it opens the tag.
pub proof fn lemma_searched_complete(tags: Seq<TagView>)
    ensures
        forall|i: int| 0 <= i < tags.len() ==> #[trigger] searches_close(tags, i),
        forall|i: int| 0 <= i < tags.len() && tags[i].open.len() > 0 ==> #[trigger] searches_open(tags, i),
        forall|i: int|
            0 <= i < tags.len() ==> #[trigger] tag_patterns(tags).contains(tags[i].close),
    decreases tags.len(),
{
    if tags.len() > 0 {
        let prev = tags.drop_last();
        lemma_searched_complete(prev);
        let n = tags.len() - 1;
        let t = tags.last();
        let sp = searched(prev);
        let mid = if t.open.len() > 0 {
            seq![(t.open, n, true)]
        } else {
            seq![]
        };
        let sv = searched(tags);
        assert(sv == sp + mid + seq![(t.close, n, false)]);
        assert forall|i: int| 0 <= i < tags.len() implies #[trigger] searches_close(tags, i) by {
            if i < n {
                assert(prev[i] == tags[i]);
                assert(searches_close(prev, i));
                let k = choose|k: int| 0 <= k < sp.len() && #[trigger] sp[k] == (prev[i].close, i, false);
                assert(sv[k] == sp[k]);
            } else {
                assert(sv[sv.len() - 1] == (t.close, n, false));
            }
        }
        assert forall|i: int| 0 <= i < tags.len() && tags[i].open.len() > 0 implies #[trigger] searches_open(tags, i) by {
            if i < n {
                assert(prev[i] == tags[i]);
                assert(searches_open(prev, i));
                let k = choose|k: int| 0 <= k < sp.len() && #[trigger] sp[k] == (prev[i].open, i, true);
                assert(sv[k] == sp[k]);
            } else {
                assert(sv[sp.len() as int] == (t.open, n, true));
            }
        }
        assert forall|i: int| 0 <= i < tags.len() implies #[trigger] tag_patterns(tags).contains(tags[i].close) by {
            assert(searches_close(tags, i));
            let k = choose|k: int| 0 <= k < sv.len() && #[trigger] sv[k] == (tags[i].close, i, false);
            assert(tag_patterns(tags)[k] == tags[i].close);
        }
    }
}

/// Every closing literal is non-empty.
pub open spec fn closes_nonempty(tags: Seq<TagView>) -> bool {
    forall|i: int| 0 <= i < tags.len() ==> #[trigger] tags[i].close.len() > 0
}

/// The tag event for a match of the `p`-th literal searched for.
pub open spec fn tag_event(tags: Seq<TagView>, p: int) -> EventView {
    let e = searched(tags)[p];
    if e.2 {
        EventView::Open(tags[e.1])
    } else {
        EventView::Close(tags[e.1])
    }
}

/// The events for the matches `m` in the bytes `h`: before each match, the
/// raw text since the previous one (when there is any), then the tag event.
pub open spec fn match_events(tags: Seq<TagView>, h: Seq<u8>, m: Seq<(int, int, int)>) -> Seq<
    EventView,
>
    decreases m.len(),
{
    if m.len() == 0 {
        seq![]
    } else {
        let prev = m.drop_last();
        let from = matching::end_of_matches(prev);
        let start = m.last().0;
        match_events(tags, h, prev) + (if start > from {
            seq![EventView::Raw(decode_utf8(h.subrange(from, start)))]
        } else {
            seq![]
        }) + seq![tag_event(tags, m.last().2)]
    }
}

/// The count of open tags after the matches `m`, starting from `p0`: an
/// opening tag adds one unless the count is at its largest, a closing tag
/// takes one away unless it is zero.
pub open spec fn pending_after(tags: Seq<TagView>, p0: nat, m: Seq<(int, int, int)>) -> nat
    decreases m.len(),
{
    if m.len() == 0 {
        p0
    } else {
        let q = pending_after(tags, p0, m.drop_last());
        if searched(tags)[m.last().2].2 {
            if q < usize::MAX {
                q + 1
            } else {
                q
            }
        } else if q > 0 {
            (q - 1) as nat
        } else {
            0
        }
    }
}

/// The encoded literals searched for.
pub open spec fn scan_patterns(tags: Seq<TagView>) -> Seq<Seq<u8>> {
    matching::encoded_patterns(tag_patterns(tags))
}

/// The matches in the bytes `h` that no further text can change.
pub open spec fn scan_matches(tags: Seq<TagView>, h: Seq<u8>) -> Seq<(int, int, int)> {
    matching::settled_matches(scan_patterns(tags), h)
}

/// Where the settled matches in `h` end.
pub open spec fn scan_end(tags: Seq<TagView>, h: Seq<u8>) -> int {
    matching::end_of_matches(scan_matches(tags, h))
}

/// Where the text held back from `h` begins.
pub open spec fn scan_hold(tags: Seq<TagView>, h: Seq<u8>) -> int {
    matching::held_from(scan_patterns(tags), h)
}

/// The events of a scan of the bytes `h`: those of the settled matches, then
/// the raw text up to where the text held back begins, if there is any.
pub open spec fn scan_events(s: ScannerView, h: Seq<u8>) -> Seq<EventView> {
    let end = scan_end(s.tags, h);
    let hold = scan_hold(s.tags, h);
    match_events(s.tags, h, scan_matches(s.tags, h)) + if hold > end {
        seq![EventView::Raw(decode_utf8(h.subrange(end, hold)))]
    } else {
        seq![]
    }
}

/// The scanner after a scan of the bytes `h`: it holds back the text from
/// where a literal could still be completed by more text.
pub open spec fn scan_state(s: ScannerView, h: Seq<u8>) -> ScannerView {
    ScannerView {
        tags: s.tags,
        buffer: decode_utf8(h.subrange(scan_hold(s.tags, h), h.len() as int)),
        max_buffer: s.max_buffer,
        pending: pending_after(s.tags, s.pending, scan_matches(s.tags, h)),
    }
}

/// `res` is the buffer-overflow error that reports the limit `max`.
pub open spec fn is_overflow(res: Result<Vec<Event>, ScannerError>, max: nat) -> bool {
    res matches Err(ScannerError::BufferOverflow(n)) && n == max
}

/// `res` succeeds with exactly the events `events`.
pub open spec fn emits(res: Result<Vec<Event>, ScannerError>, events: Seq<EventView>) -> bool {
    res matches Ok(v) && events_view(v@) == events
}

/// The bytes `feed` counts against the buffer limit: the chunk alone while a
/// tag is open and the chunk holds no `<`, else the text held back and the
/// chunk together.
pub open spec fn counted_len(s: ScannerView, chunk: Seq<char>) -> int {
    if s.pending > 0 && !chunk.contains('<') {
        encode_utf8(chunk).len() as int
    } else {
        encode_utf8(s.buffer + chunk).len() as int
    }
}

/// `feed` accepts the chunk: what it counts is within the buffer limit.
pub open spec fn feed_ok(s: ScannerView, chunk: Seq<char>) -> bool {
    counted_len(s, chunk) <= s.max_buffer
}

/// The events `feed` emits for an accepted chunk.
pub open spec fn feed_events(s: ScannerView, chunk: Seq<char>) -> Seq<EventView> {
    scan_events(s, encode_utf8(s.buffer + chunk))
}

/// The scanner after `feed`: scanned on when the chunk is accepted, as it
/// was when it is refused.
pub open spec fn feed_state(s: ScannerView, chunk: Seq<char>) -> ScannerView {
    if feed_ok(s, chunk) {
        scan_state(s, encode_utf8(s.buffer + chunk))
    } else {
        s
    }
}

/// What `feed` does: the text held back and the chunk are scanned together,
/// unless what it counts exceeds the buffer limit, which refuses the chunk
/// and leaves the scanner as it was.
pub open spec fn feed_spec(
    s: ScannerView,
    chunk: Seq<char>,
    after: ScannerView,
    res: Result<Vec<Event>, ScannerError>,
) -> bool {
    let h = encode_utf8(s.buffer + chunk);
    if !feed_ok(s, chunk) {
        &&& after == s
        &&& is_overflow(res, s.max_buffer)
    } else {
        &&& after == scan_state(s, h)
        &&& emits(res, scan_events(s, h))
    }
}

/// Each entry of `searched` names a tag, carries its opening or closing
/// literal, and that literal is not empty.
pub proof fn lemma_searched(tags: Seq<TagView>)
    requires
        closes_nonempty(tags),
    ensures
        forall|k: int|
            0 <= k < searched(tags).len() ==> {
                &&& 0 <= (#[trigger] searched(tags)[k]).1 < tags.len()
                &&& searched(tags)[k].0 == if searched(tags)[k].2 {
                    tags[searched(tags)[k].1].open
                } else {
                    tags[searched(tags)[k].1].close
                }
                &&& searched(tags)[k].0.len() > 0
            },
    decreases tags.len(),
{
    if tags.len() > 0 {
        let prev = tags.drop_last();
        assert(closes_nonempty(prev)) by {
            assert forall|i: int| 0 <= i < prev.len() implies #[trigger] prev[i].close.len() > 0 by {
                assert(prev[i] == tags[i]);
            }
        }
        lemma_searched(prev);
        let sp = searched(prev);
        let sv = searched(tags);
        assert forall|k: int| 0 <= k < sv.len() implies {
            &&& 0 <= (#[trigger] sv[k]).1 < tags.len()
            &&& sv[k].0 == if sv[k].2 {
                tags[sv[k].1].open
            } else {
                tags[sv[k].1].close
            }
            &&& sv[k].0.len() > 0
        } by {
            if k < sp.len() {
                assert(sv[k] == sp[k]);
                assert(prev[sp[k].1] == tags[sp[k].1]);
            } else {
                assert(tags[tags.len() - 1].close.len() > 0);
            }
        }
    }
}

/// The literals searched for are not empty.
pub proof fn lemma_tag_patterns_nonempty(tags: Seq<TagView>)
    requires
        closes_nonempty(tags),
    ensures
        matching::all_nonempty(tag_patterns(tags)),
{
    lemma_searched(tags);
    assert forall|i: int| 0 <= i < tag_patterns(tags).len() implies #[trigger] tag_patterns(
        tags,
    )[i].len() > 0 by {
        assert(tag_patterns(tags)[i] == searched(tags)[i].0);
    }
}

/// The scanner with nothing held back.
pub open spec fn cleared(s: ScannerView) -> ScannerView {
    ScannerView { tags: s.tags, buffer: seq![], max_buffer: s.max_buffer, pending: s.pending }
}

/// What `finish` emits: the held-back text as one raw event, if there is any.
pub open spec fn finish_events(s: ScannerView) -> Seq<EventView> {
    if s.buffer.len() == 0 {
        seq![]
    } else {
        seq![EventView::Raw(s.buffer)]
    }
}

/// The text an event stands for: a raw chunk, or the literal of its tag.
pub open spec fn event_text(e: EventView) -> Seq<char> {
    match e {
        EventView::Open(t) => t.open,
        EventView::Close(t) => t.close,
        EventView::Raw(s) => s,
    }
}

/// The text a sequence of events stands for.
pub open spec fn events_text(events: Seq<EventView>) -> Seq<char>
    decreases events.len(),
{
    if events.len() == 0 {
        seq![]
    } else {
        events_text(events.drop_last()) + event_text(events.last())
    }
}

/// The events for the first `k` matches stand for the text up to where the
/// last of them ends, which is a character boundary.
pub proof fn lemma_match_events_text(tags: Seq<TagView>, h: Seq<u8>, m: Seq<(int, int, int)>, k: int)
    requires
        valid_utf8(h),
        closes_nonempty(tags),
        matching::matches_wf(matching::encoded_patterns(tag_patterns(tags)), h, m, 0),
        0 <= k <= m.len(),
    ensures
        is_char_boundary(h, matching::end_of_matches(m.take(k))),
        0 <= matching::end_of_matches(m.take(k)) <= h.len(),
        events_text(match_events(tags, h, m.take(k))) == decode_utf8(
            h.subrange(0, matching::end_of_matches(m.take(k))),
        ),
    decreases k,
{
    let pats = matching::encoded_patterns(tag_patterns(tags));
    if k == 0 {
        assert(m.take(0) =~= seq![]);
        is_char_boundary_start_end_of_seq(h);
        assert(h.subrange(0, 0) =~= seq![]);
        assert(decode_utf8(seq![]) =~= seq![]);
    } else {
        lemma_match_events_text(tags, h, m, k - 1);
        let cur = m.take(k);
        let prev = m.take(k - 1);
        assert(cur.drop_last() =~= prev);
        assert(cur.last() == m[k - 1]);
        let from = matching::end_of_matches(prev);
        let (s, e, p) = m[k - 1];
        if k > 1 {
            assert(prev.last() == m[k - 2]);
            assert(m[k - 2].1 <= m[k - 1].0);
        }
        let pat = tag_patterns(tags)[p];
        lemma_searched(tags);
        assert(pat == searched(tags)[p].0);
        assert(pats[p] == encode_utf8(pat));
        encode_utf8_valid_utf8(pat);
        text::lemma_occurrence_boundaries(h, pats[p], s);
        text::lemma_decode_split3(h, 0, from, s);
        text::lemma_decode_split3(h, 0, s, e);
        assert(h.subrange(s, e) == encode_utf8(pat));
        encode_utf8_decode_utf8(pat);
        assert(event_text(tag_event(tags, p)) == pat);
        let ev = match_events(tags, h, cur);
        let ev_prev = match_events(tags, h, prev);
        assert(ev.last() == tag_event(tags, p));
        assert(events_text(ev) == events_text(ev.drop_last()) + pat);
        if s > from {
            assert(ev == ev_prev + seq![EventView::Raw(decode_utf8(h.subrange(from, s)))] + seq![
                tag_event(tags, p),
            ]);
            assert(ev.drop_last() =~= ev_prev + seq![EventView::Raw(decode_utf8(h.subrange(from, s)))]);
            assert(ev.drop_last().drop_last() =~= ev_prev);
            assert(events_text(ev.drop_last()) == events_text(ev_prev) + decode_utf8(
                h.subrange(from, s),
            ));
        } else {
            assert(h.subrange(from, s) =~= seq![]);
            assert(decode_utf8(h.subrange(from, s)) =~= seq![]);
            assert(ev.drop_last() =~= ev_prev);
        }
        assert(matching::end_of_matches(cur) == e);
        assert(events_text(ev) =~= decode_utf8(h.subrange(0, e)));
    }
}

/// The text a scan emits, followed by the text it holds back, is the text
/// scanned; the held-back text is the end of it.
pub proof fn lemma_scan_conserves_text(s: ScannerView, b: Seq<char>)
    requires
        closes_nonempty(s.tags),
    ensures
        events_text(scan_events(s, encode_utf8(b))) + scan_state(s, encode_utf8(b)).buffer == b,
        encode_utf8(scan_state(s, encode_utf8(b)).buffer) == encode_utf8(b).subrange(
            scan_hold(s.tags, encode_utf8(b)),
            encode_utf8(b).len() as int,
        ),
{
    let h = encode_utf8(b);
    let tags = s.tags;
    let m = scan_matches(tags, h);
    encode_utf8_valid_utf8(b);
    lemma_tag_patterns_nonempty(tags);
    matching::lemma_settled(tag_patterns(tags), h);
    lemma_match_events_text(tags, h, m, m.len() as int);
    assert(m.take(m.len() as int) =~= m);
    let end = scan_end(tags, h);
    let hold = scan_hold(tags, h);
    is_char_boundary_start_end_of_seq(h);
    text::lemma_decode_split3(h, 0, end, hold);
    text::lemma_decode_split3(h, 0, hold, h.len() as int);
    assert(h.subrange(0, h.len() as int) =~= h);
    encode_utf8_decode_utf8(b);
    let me = match_events(tags, h, m);
    let ev = scan_events(s, h);
    if hold > end {
        assert(ev.drop_last() =~= me);
    } else {
        assert(ev =~= me + seq![]);
        assert(h.subrange(end, hold) =~= seq![]);
        assert(decode_utf8(h.subrange(end, hold)) =~= seq![]);
    }
    text::lemma_boundary_in_suffix(h, hold, h.len() as int);
    assert(h.subrange(hold, h.len() as int).subrange(0, h.len() - hold) =~= h.subrange(hold, h.len() as int));
    decode_utf8_encode_utf8(h.subrange(hold, h.len() as int));
}

/// A chunk fed to a scanner comes out again, in order: the text of the
/// events `feed` emits, followed by the text it then holds back, is the text
/// it held back before followed by the chunk.
pub proof fn lemma_feed_conserves_text(
    s: ScannerView,
    chunk: Seq<char>,
    after: ScannerView,
    res: Result<Vec<Event>, ScannerError>,
)
    requires
        closes_nonempty(s.tags),
        feed_spec(s, chunk, after, res),
        res is Ok,
    ensures
        events_text(events_view(res->Ok_0@)) + after.buffer == s.buffer + chunk,
{
    lemma_scan_conserves_text(s, s.buffer + chunk);
}

/// Everything fed comes out by the time the stream is finished: after a
/// successful `feed` and then `finish`, the text of all emitted events is the
/// text held back before followed by the chunk, and nothing is held back.
pub proof fn lemma_feed_then_finish_emits_all(
    s: ScannerView,
    chunk: Seq<char>,
    after: ScannerView,
    res: Result<Vec<Event>, ScannerError>,
)
    requires
        closes_nonempty(s.tags),
        feed_spec(s, chunk, after, res),
        res is Ok,
    ensures
        events_text(events_view(res->Ok_0@)) + events_text(finish_events(after)) == s.buffer
            + chunk,
        cleared(after).buffer.len() == 0,
{
    lemma_feed_conserves_text(s, chunk, after, res);
    let fe = finish_events(after);
    if after.buffer.len() > 0 {
        assert(fe.drop_last() =~= seq![]);
        assert(events_text(fe.drop_last()) =~= seq![]);
        assert(events_text(fe) =~= after.buffer);
    } else {
        assert(fe =~= seq![]);
        assert(events_text(fe) =~= seq![]);
        assert(after.buffer =~= seq![]);
    }
}

/// `feed` never emits an empty raw event.
pub proof fn lemma_feed_raw_nonempty(
    s: ScannerView,
    chunk: Seq<char>,
    after: ScannerView,
    res: Result<Vec<Event>, ScannerError>,
)
    requires
        closes_nonempty(s.tags),
        feed_spec(s, chunk, after, res),
        res is Ok,
    ensures
        forall|i: int|
            0 <= i < events_view(res->Ok_0@).len() ==> (#[trigger] events_view(res->Ok_0@)[i] matches EventView::Raw(x)
                ==> x.len() > 0),
{
    let b = s.buffer + chunk;
    let h = encode_utf8(b);
    encode_utf8_valid_utf8(b);
    lemma_tag_patterns_nonempty(s.tags);
    matching::lemma_settled(tag_patterns(s.tags), h);
    lemma_raw_nonempty_upto(s.tags, h, scan_matches(s.tags, h), scan_matches(s.tags, h).len() as int);
    lemma_match_events_text(s.tags, h, scan_matches(s.tags, h), scan_matches(s.tags, h).len() as int);
    assert(scan_matches(s.tags, h).take(scan_matches(s.tags, h).len() as int) =~= scan_matches(s.tags, h));
    let ev = scan_events(s, h);
    let me = match_events(s.tags, h, scan_matches(s.tags, h));
    let end = scan_end(s.tags, h);
    let hold = scan_hold(s.tags, h);
    assert forall|i: int| 0 <= i < ev.len() implies (#[trigger] ev[i] matches EventView::Raw(x)
        ==> x.len() > 0) by {
        if i < me.len() {
            assert(ev[i] == me[i]);
        } else {
            lemma_decode_nonempty(h, end, hold);
        }
    }
}

/// Decoding a non-empty range between two boundaries gives some characters.
proof fn lemma_decode_nonempty(h: Seq<u8>, a: int, b: int)
    requires
        valid_utf8(h),
        0 <= a < b <= h.len(),
        is_char_boundary(h, a),
        is_char_boundary(h, b),
    ensures
        decode_utf8(h.subrange(a, b)).len() > 0,
{
    text::lemma_decode_split3(h, a, b, b);
    let d = decode_utf8(h.subrange(a, b));
    if d.len() == 0 {
        encode_utf8_decode_utf8(d);
        decode_utf8_encode_utf8(h.subrange(a, b));
        assert(encode_utf8(d) =~= seq![]);
    }
}

/// The raw events of the first `k` settled matches hold some text.
proof fn lemma_raw_nonempty_upto(tags: Seq<TagView>, h: Seq<u8>, m: Seq<(int, int, int)>, k: int)
    requires
        valid_utf8(h),
        closes_nonempty(tags),
        matching::matches_wf(scan_patterns(tags), h, m, 0),
        0 <= k <= m.len(),
    ensures
        forall|i: int|
            0 <= i < match_events(tags, h, m.take(k)).len() ==> (#[trigger] match_events(tags, h, m.take(k))[i] matches EventView::Raw(x)
                ==> x.len() > 0),
    decreases k,
{
    if k > 0 {
        lemma_raw_nonempty_upto(tags, h, m, k - 1);
        lemma_match_events_text(tags, h, m, k - 1);
        let cur = m.take(k);
        let prev = m.take(k - 1);
        assert(cur.drop_last() =~= prev);
        assert(cur.last() == m[k - 1]);
        let from = matching::end_of_matches(prev);
        let (st, e, p) = m[k - 1];
        if k > 1 {
            assert(prev.last() == m[k - 2]);
            assert(m[k - 2].1 <= m[k - 1].0);
        }
        let pats = scan_patterns(tags);
        lemma_tag_patterns_nonempty(tags);
        encode_utf8_valid_utf8(tag_patterns(tags)[p]);
        text::lemma_occurrence_boundaries(h, pats[p], st);
        let ev = match_events(tags, h, cur);
        let ev_prev = match_events(tags, h, prev);
        assert forall|i: int| 0 <= i < ev.len() implies (#[trigger] ev[i] matches EventView::Raw(x)
            ==> x.len() > 0) by {
            if i < ev_prev.len() {
                assert(ev[i] == ev_prev[i]);
            } else if st > from && i == ev_prev.len() {
                lemma_decode_nonempty(h, from, st);
            }
        }
    }
}

/// What the scanner holds back after a successful `feed` is nothing, or the
/// beginning of a literal it searches for, short of the whole literal: a tag
/// split across chunks is kept until the rest of it arrives.
pub proof fn lemma_feed_holds_back_tag_starts(
    s: ScannerView,
    chunk: Seq<char>,
    after: ScannerView,
    res: Result<Vec<Event>, ScannerError>,
)
    requires
        closes_nonempty(s.tags),
        feed_spec(s, chunk, after, res),
        res is Ok,
    ensures
        after.buffer.len() == 0 || exists|i: int|
            0 <= i < tag_patterns(s.tags).len() && after.buffer.len() < (#[trigger] tag_patterns(
                s.tags,
            )[i]).len() && tag_patterns(s.tags)[i].take(after.buffer.len() as int) == after.buffer,
{
    let b = s.buffer + chunk;
    let h = encode_utf8(b);
    let pats = scan_patterns(s.tags);
    encode_utf8_valid_utf8(b);
    lemma_tag_patterns_nonempty(s.tags);
    matching::lemma_settled(tag_patterns(s.tags), h);
    lemma_scan_conserves_text(s, b);
    let hold = scan_hold(s.tags, h);
    if hold < h.len() {
        let i = choose|i: int| 0 <= i < pats.len() && #[trigger] matching::is_partial(pats[i], h, hold);
        let pat = tag_patterns(s.tags)[i];
        let eb = encode_utf8(after.buffer);
        let ep = encode_utf8(pat);
        assert(ep == pats[i]);
        let n = h.len() - hold;
        assert(eb == ep.subrange(0, n));
        encode_utf8_valid_utf8(pat);
        encode_utf8_valid_utf8(after.buffer);
        assert(ep.subrange(0, eb.len() as int) =~= eb);
        text::lemma_prefix_boundary(ep, eb);
        decode_utf8_split(ep, n);
        encode_utf8_decode_utf8(pat);
        decode_utf8_encode_utf8(eb);
        encode_utf8_decode_utf8(after.buffer);
        let front = decode_utf8(ep.subrange(0, n));
        let back = decode_utf8(ep.subrange(n, ep.len() as int));
        assert(front == after.buffer);
        assert(pat == after.buffer + back);
        if back.len() == 0 {
            lemma_encode_back_empty(ep, n);
        }
        assert(pat.take(after.buffer.len() as int) =~= after.buffer);
    } else {
        assert(h.subrange(hold, h.len() as int) =~= seq![]);
        assert(encode_utf8(after.buffer).len() == 0);
        if after.buffer.len() > 0 {
            assert(after.buffer =~= seq![after.buffer[0]] + after.buffer.drop_first());
        }
    }
}

/// A non-empty valid tail of a valid UTF-8 sequence decodes to some characters.
proof fn lemma_encode_back_empty(ep: Seq<u8>, n: int)
    requires
        valid_utf8(ep),
        0 <= n < ep.len(),
        is_char_boundary(ep, n),
    ensures
        decode_utf8(ep.subrange(n, ep.len() as int)).len() > 0,
{
    is_char_boundary_start_end_of_seq(ep);
    lemma_decode_nonempty(ep, n, ep.len() as int);
}

/// The tag events among `events`, in order.
pub open spec fn tag_events(events: Seq<EventView>) -> Seq<EventView>
    decreases events.len(),
{
    if events.len() == 0 {
        seq![]
    } else {
        tag_events(events.drop_last()) + if events.last() is Raw {
            seq![]
        } else {
            seq![events.last()]
        }
    }
}

/// The tag events of the matches `m`.
pub open spec fn match_tags(tags: Seq<TagView>, m: Seq<(int, int, int)>) -> Seq<EventView> {
    m.map_values(|x: (int, int, int)| tag_event(tags, x.2))
}

/// Tag events and texts of joined event sequences are joined.
proof fn lemma_events_concat(a: Seq<EventView>, b: Seq<EventView>)
    ensures
        tag_events(a + b) == tag_events(a) + tag_events(b),
        events_text(a + b) == events_text(a) + events_text(b),
    decreases b.len(),
{
    if b.len() == 0 {
        assert(a + b =~= a);
        assert(tag_events(a) + tag_events(b) =~= tag_events(a));
        assert(events_text(a) + events_text(b) =~= events_text(a));
    } else {
        lemma_events_concat(a, b.drop_last());
        assert((a + b).drop_last() =~= a + b.drop_last());
        assert((a + b).last() == b.last());
        assert(tag_events(a + b) =~= tag_events(a) + tag_events(b));
        assert(events_text(a + b) =~= events_text(a) + events_text(b));
    }
}

/// The tag events among the events of matches are the matches' tag events.
proof fn lemma_match_events_tags(tags: Seq<TagView>, h: Seq<u8>, m: Seq<(int, int, int)>)
    ensures
        tag_events(match_events(tags, h, m)) == match_tags(tags, m),
    decreases m.len(),
{
    if m.len() > 0 {
        lemma_match_events_tags(tags, h, m.drop_last());
        let prev = m.drop_last();
        let from = matching::end_of_matches(prev);
        let raw = if m.last().0 > from {
            seq![EventView::Raw(decode_utf8(h.subrange(from, m.last().0)))]
        } else {
            seq![]
        };
        let te = seq![tag_event(tags, m.last().2)];
        lemma_events_concat(match_events(tags, h, prev), raw);
        lemma_events_concat(match_events(tags, h, prev) + raw, te);
        if raw.len() > 0 {
            lemma_tag_events_raw(decode_utf8(h.subrange(from, m.last().0)));
        } else {
            assert(raw =~= Seq::<EventView>::empty());
        }
        assert(te.drop_last() =~= Seq::<EventView>::empty());
        assert(tag_events(te.drop_last()) =~= Seq::<EventView>::empty());
        assert(!(te.last() is Raw));
        assert(tag_events(te) =~= te);
        assert(match_tags(tags, m) =~= match_tags(tags, prev) + te);
    }
}

/// A raw event is no tag event.
proof fn lemma_tag_events_raw(x: Seq<char>)
    ensures
        tag_events(seq![EventView::Raw(x)]) == Seq::<EventView>::empty(),
{
    let e = seq![EventView::Raw(x)];
    assert(e.drop_last() =~= Seq::<EventView>::empty());
    assert(tag_events(e.drop_last()) =~= Seq::<EventView>::empty());
    assert(e.last() is Raw);
    assert(tag_events(e) =~= Seq::<EventView>::empty());
}

/// The tag events of a scan are those of its settled matches.
proof fn lemma_scan_tags(s: ScannerView, h: Seq<u8>)
    ensures
        tag_events(scan_events(s, h)) == match_tags(s.tags, scan_matches(s.tags, h)),
{
    let me = match_events(s.tags, h, scan_matches(s.tags, h));
    let end = scan_end(s.tags, h);
    let hold = scan_hold(s.tags, h);
    let tail = if hold > end {
        seq![EventView::Raw(decode_utf8(h.subrange(end, hold)))]
    } else {
        seq![]
    };
    lemma_match_events_tags(s.tags, h, scan_matches(s.tags, h));
    lemma_events_concat(me, tail);
    if hold > end {
        lemma_tag_events_raw(decode_utf8(h.subrange(end, hold)));
    } else {
        assert(tail =~= Seq::<EventView>::empty());
    }
    assert(tag_events(scan_events(s, h)) =~= tag_events(me));
}

/// The count of open tags after joined matches is counted on from the first.
proof fn lemma_pending_concat(tags: Seq<TagView>, p0: nat, a: Seq<(int, int, int)>, b: Seq<(int, int, int)>, d: int)
    ensures
        pending_after(tags, p0, a + matching::shift_matches(b, d)) == pending_after(
            tags,
            pending_after(tags, p0, a),
            b,
        ),
    decreases b.len(),
{
    let sb = matching::shift_matches(b, d);
    if b.len() == 0 {
        assert(a + sb =~= a);
    } else {
        lemma_pending_concat(tags, p0, a, b.drop_last(), d);
        assert((a + sb).drop_last() =~= a + matching::shift_matches(b.drop_last(), d));
        assert((a + sb).last().2 == b.last().2);
    }
}

/// The raw text between consecutive tag events: before the first, between
/// each two, and after the last, with neighbouring raw events joined.
pub open spec fn raw_between(events: Seq<EventView>) -> Seq<Seq<char>>
    decreases events.len(),
{
    if events.len() == 0 {
        seq![seq![]]
    } else {
        let r = raw_between(events.drop_last());
        match events.last() {
            EventView::Raw(x) => r.update(r.len() - 1, r.last() + x),
            _ => r.push(seq![]),
        }
    }
}

/// The raw text around the tags of joined events: the last piece of the
/// first and the first piece of the second become one.
pub open spec fn join_between(r: Seq<Seq<char>>, q: Seq<Seq<char>>) -> Seq<Seq<char>> {
    r.drop_last() + seq![r.last() + q[0]] + q.drop_first()
}

/// There is one more piece of raw text than there are tag events.
proof fn lemma_raw_between_len(events: Seq<EventView>)
    ensures
        raw_between(events).len() == tag_events(events).len() + 1,
    decreases events.len(),
{
    if events.len() > 0 {
        lemma_raw_between_len(events.drop_last());
    }
}

/// The raw text around the tags of joined events is joined.
proof fn lemma_raw_between_concat(a: Seq<EventView>, b: Seq<EventView>)
    ensures
        raw_between(a + b) == join_between(raw_between(a), raw_between(b)),
    decreases b.len(),
{
    lemma_raw_between_len(a);
    let ra = raw_between(a);
    if b.len() == 0 {
        assert(a + b =~= a);
        assert(raw_between(b) =~= seq![Seq::<char>::empty()]);
        assert(ra.last() + Seq::<char>::empty() =~= ra.last());
        assert(join_between(ra, raw_between(b)) =~= ra);
    } else {
        let b0 = b.drop_last();
        lemma_raw_between_concat(a, b0);
        lemma_raw_between_len(b0);
        assert((a + b).drop_last() =~= a + b0);
        assert((a + b).last() == b.last());
        let rb0 = raw_between(b0);
        let j0 = join_between(ra, rb0);
        match b.last() {
            EventView::Raw(x) => {
                let rb = rb0.update(rb0.len() - 1, rb0.last() + x);
                if rb0.len() == 1 {
                    assert((ra.last() + rb0[0]) + x =~= ra.last() + (rb0[0] + x));
                    assert(join_between(ra, rb) =~= j0.update(j0.len() - 1, j0.last() + x));
                } else {
                    assert(join_between(ra, rb) =~= j0.update(j0.len() - 1, j0.last() + x));
                }
            },
            _ => {
                assert(join_between(ra, rb0.push(seq![])) =~= j0.push(seq![]));
            },
        }
    }
}

/// The raw text around the tags of the settled matches `m` of `h`, and of
/// the text up to `hold` after them.
pub open spec fn scan_segments(h: Seq<u8>, m: Seq<(int, int, int)>, hold: int) -> Seq<Seq<char>> {
    Seq::new(
        m.len() + 1,
        |k: int|
            decode_utf8(
                h.subrange(
                    matching::cursor_at(m, k),
                    if k < m.len() {
                        m[k].0
                    } else {
                        hold
                    },
                ),
            ),
    )
}

/// The raw text around the tags of the events of matches.
proof fn lemma_match_events_between(tags: Seq<TagView>, h: Seq<u8>, m: Seq<(int, int, int)>)
    requires
        forall|k: int| 0 <= k < m.len() ==> 0 <= #[trigger] m[k].0 <= m[k].1 <= h.len(),
        forall|k: int| 0 <= k < m.len() - 1 ==> #[trigger] m[k].1 <= m[k + 1].0,
    ensures
        raw_between(match_events(tags, h, m)) == scan_segments(h, m, matching::end_of_matches(m)),
    decreases m.len(),
{
    if m.len() == 0 {
        assert(h.subrange(0, 0) =~= Seq::<u8>::empty());
        assert(decode_utf8(Seq::<u8>::empty()) =~= Seq::<char>::empty());
        assert(scan_segments(h, m, 0) =~= seq![Seq::<char>::empty()]);
    } else {
        let prev = m.drop_last();
        assert forall|k: int| 0 <= k < prev.len() - 1 implies #[trigger] prev[k].1 <= prev[k + 1].0 by {
            assert(prev[k] == m[k]);
            assert(prev[k + 1] == m[k + 1]);
        }
        assert forall|k: int| 0 <= k < prev.len() implies 0 <= #[trigger] prev[k].0 <= prev[k].1 <= h.len() by {
            assert(prev[k] == m[k]);
        }
        lemma_match_events_between(tags, h, prev);
        assert(m.last() == m[m.len() - 1]);
        if prev.len() > 0 {
            assert(prev.last() == m[m.len() - 2]);
        }
        let from = matching::end_of_matches(prev);
        let start = m.last().0;
        let raw = if start > from {
            seq![EventView::Raw(decode_utf8(h.subrange(from, start)))]
        } else {
            seq![]
        };
        let te = seq![tag_event(tags, m.last().2)];
        let ep = match_events(tags, h, prev);
        assert(match_events(tags, h, m) == ep + raw + te);
        let rp = scan_segments(h, prev, from);
        assert(from == matching::cursor_at(m, prev.len() as int)) by {
            if prev.len() > 0 {
                assert(prev.last() == m[prev.len() - 1]);
            }
        }
        assert(raw_between(ep + raw) == rp.update(rp.len() - 1, decode_utf8(h.subrange(from, start)))) by {
            assert(rp.last() =~= decode_utf8(h.subrange(from, from)));
            assert(h.subrange(from, from) =~= Seq::<u8>::empty());
            assert(decode_utf8(Seq::<u8>::empty()) =~= Seq::<char>::empty());
            if start > from {
                assert((ep + raw).drop_last() =~= ep);
                assert((ep + raw).last() == raw[0]);
                assert(rp.last() + decode_utf8(h.subrange(from, start)) =~= decode_utf8(h.subrange(from, start)));
            } else {
                assert(ep + raw =~= ep);
                assert(h.subrange(from, start) =~= Seq::<u8>::empty());
                assert(rp.update(rp.len() - 1, decode_utf8(h.subrange(from, start))) =~= rp);
            }
        }
        assert((ep + raw + te).drop_last() =~= ep + raw);
        assert((ep + raw + te).last() == te[0]);
        let end = matching::end_of_matches(m);
        assert(end == m.last().1);
        assert(raw_between(ep + raw + te) =~= scan_segments(h, m, end)) by {
            let lhs = raw_between(ep + raw + te);
            let rhs = scan_segments(h, m, end);
            assert(lhs.len() == rhs.len());
            assert forall|k: int| 0 <= k < lhs.len() implies lhs[k] == rhs[k] by {
                if k < prev.len() {
                    assert(prev[k] == m[k]);
                    assert(matching::cursor_at(prev, k) == matching::cursor_at(m, k)) by {
                        if k > 0 {
                            assert(prev[k - 1] == m[k - 1]);
                        }
                    }
                } else if k == prev.len() {
                } else {
                    assert(matching::cursor_at(m, k) == end);
                    assert(h.subrange(end, end) =~= Seq::<u8>::empty());
                    assert(decode_utf8(Seq::<u8>::empty()) =~= Seq::<char>::empty());
                }
            }
        }
    }
}

/// The raw text around the tags of a scan.
proof fn lemma_scan_between(s: ScannerView, h: Seq<u8>)
    requires
        closes_nonempty(s.tags),
        valid_utf8(h),
    ensures
        raw_between(scan_events(s, h)) == scan_segments(h, scan_matches(s.tags, h), scan_hold(s.tags, h)),
{
    let m = scan_matches(s.tags, h);
    let end = scan_end(s.tags, h);
    let hold = scan_hold(s.tags, h);
    lemma_tag_patterns_nonempty(s.tags);
    matching::lemma_settled(tag_patterns(s.tags), h);
    assert forall|k: int| 0 <= k < m.len() implies 0 <= #[trigger] m[k].0 <= m[k].1 <= h.len() by {
        assert(matching::occurs_at(h, scan_patterns(s.tags)[m[k].2], m[k].0));
    }
    lemma_match_events_between(s.tags, h, m);
    let me = match_events(s.tags, h, m);
    let rm = scan_segments(h, m, end);
    assert(end == matching::cursor_at(m, m.len() as int)) by {
        if m.len() > 0 {
            assert(m.last() == m[m.len() - 1]);
        }
    }
    assert(rm.last() =~= Seq::<char>::empty()) by {
        assert(h.subrange(end, end) =~= Seq::<u8>::empty());
        assert(decode_utf8(Seq::<u8>::empty()) =~= Seq::<char>::empty());
    }
    if hold > end {
        let tail = seq![EventView::Raw(decode_utf8(h.subrange(end, hold)))];
        assert((me + tail).drop_last() =~= me);
        assert((me + tail).last() == tail[0]);
        assert(raw_between(me + tail) =~= scan_segments(h, m, hold));
    } else {
        assert(scan_events(s, h) =~= me);
        assert(h.subrange(end, hold) =~= Seq::<u8>::empty());
        assert(rm =~= scan_segments(h, m, hold));
    }
}

/// A character boundary of the start `t1` of a valid text is one of the text.
pub proof fn lemma_boundary_of_start(t1: Seq<u8>, ub: Seq<u8>, i: int)
    requires
        valid_utf8(t1),
        valid_utf8(ub),
        valid_utf8(t1 + ub),
        0 <= i <= t1.len(),
        is_char_boundary(t1, i),
    ensures
        is_char_boundary(t1 + ub, i),
{
    let t = t1 + ub;
    if i < t1.len() {
        text::lemma_boundary_byte(t1, i);
        assert(t[i] == t1[i]);
    } else if ub.len() > 0 {
        text::lemma_first_byte_leads(ub);
        assert(t[i] == ub[0]);
    }
    text::lemma_boundary_by_byte(t, i);
}

/// A character boundary of the part of a valid text from the boundary `h`
/// on is, moved by `h`, one of the text.
pub proof fn lemma_boundary_of_rest(t: Seq<u8>, h: int, x: int)
    requires
        valid_utf8(t),
        0 <= h <= t.len(),
        valid_utf8(t.subrange(h, t.len() as int)),
        0 <= x <= t.len() - h,
        is_char_boundary(t.subrange(h, t.len() as int), x),
    ensures
        is_char_boundary(t, h + x),
{
    let t2 = t.subrange(h, t.len() as int);
    if x < t2.len() {
        text::lemma_boundary_byte(t2, x);
        assert(t[h + x] == t2[x]);
    }
    text::lemma_boundary_by_byte(t, h + x);
}

/// The raw text around the tags of settled matches of `t1` followed by
/// those of `t2`, the part of `t1` from `h1` on followed by more text,
/// joins the raw text around the tags of each.
pub proof fn lemma_segments_join(
    t1: Seq<u8>,
    ub: Seq<u8>,
    m1: Seq<(int, int, int)>,
    h1: int,
    m2: Seq<(int, int, int)>,
    hold2: int,
)
    requires
        valid_utf8(t1),
        valid_utf8(ub),
        valid_utf8(t1 + ub),
        0 <= h1 <= t1.len(),
        is_char_boundary(t1, h1),
        forall|k: int|
            0 <= k < m1.len() ==> 0 <= #[trigger] m1[k].0 <= m1[k].1 <= t1.len() && is_char_boundary(
                t1,
                m1[k].1,
            ),
        forall|k: int| 0 <= k < m1.len() - 1 ==> #[trigger] m1[k].1 <= m1[k + 1].0,
        matching::cursor_at(m1, m1.len() as int) <= h1,
        valid_utf8(t1.subrange(h1, t1.len() as int) + ub),
        forall|k: int|
            0 <= k < m2.len() ==> 0 <= #[trigger] m2[k].0 <= m2[k].1 <= (t1.subrange(h1, t1.len() as int) + ub).len()
                && is_char_boundary(t1.subrange(h1, t1.len() as int) + ub, m2[k].0),
        forall|k: int| 0 <= k < m2.len() - 1 ==> #[trigger] m2[k].1 <= m2[k + 1].0,
        matching::cursor_at(m2, m2.len() as int) <= hold2 <= (t1.subrange(h1, t1.len() as int) + ub).len(),
        is_char_boundary(t1.subrange(h1, t1.len() as int) + ub, hold2),
    ensures
        scan_segments(t1 + ub, m1 + matching::shift_matches(m2, h1), h1 + hold2) == join_between(
            scan_segments(t1, m1, h1),
            scan_segments(t1.subrange(h1, t1.len() as int) + ub, m2, hold2),
        ),
{
    let t = t1 + ub;
    let t2 = t1.subrange(h1, t1.len() as int) + ub;
    assert(t.subrange(h1, t.len() as int) =~= t2);
    let n1 = m1.len() as int;
    let n2 = m2.len() as int;
    let m = m1 + matching::shift_matches(m2, h1);
    let g1 = scan_segments(t1, m1, h1);
    let g2 = scan_segments(t2, m2, hold2);
    let lhs = scan_segments(t, m, h1 + hold2);
    let rhs = join_between(g1, g2);
    assert(lhs.len() == rhs.len());
    assert forall|k: int| 0 <= k < lhs.len() implies lhs[k] == rhs[k] by {
        if k < n1 {
            assert(m[k] == m1[k]);
            assert(matching::cursor_at(m, k) == matching::cursor_at(m1, k)) by {
                if k > 0 {
                    assert(m[k - 1] == m1[k - 1]);
                    assert(m1[k - 1].1 <= m1[k].0);
                }
            }
            assert(0 <= matching::cursor_at(m1, k) <= m1[k].0 <= t1.len()) by {
                if k > 0 {
                    assert(0 <= m1[k - 1].0 <= m1[k - 1].1);
                    assert(m1[k - 1].1 <= m1[k].0);
                }
            }
            assert(t.subrange(matching::cursor_at(m1, k), m1[k].0) =~= t1.subrange(
                matching::cursor_at(m1, k),
                m1[k].0,
            ));
            assert(rhs[k] == g1[k]);
        } else if k == n1 {
            let c1 = matching::cursor_at(m1, n1);
            assert(matching::cursor_at(m, k) == c1) by {
                if k > 0 {
                    assert(m[k - 1] == m1[k - 1]);
                }
            }
            let x = if n2 > 0 {
                m2[0].0
            } else {
                hold2
            };
            if n2 > 0 {
                assert(m[k] == (m2[0].0 + h1, m2[0].1 + h1, m2[0].2));
            }
            assert(matching::cursor_at(m2, 0) == 0);
            assert(0 <= x <= t2.len());
            assert(is_char_boundary(t2, x));
            assert(0 <= c1) by {
                if n1 > 0 {
                    assert(0 <= m1[n1 - 1].0);
                }
            }
            assert(is_char_boundary(t1, c1)) by {
                if n1 == 0 {
                    is_char_boundary_start_end_of_seq(t1);
                }
            }
            lemma_boundary_of_start(t1, ub, c1);
            lemma_boundary_of_start(t1, ub, h1);
            lemma_boundary_of_rest(t, h1, x);
            text::lemma_decode_split3(t, c1, h1, h1 + x);
            assert(t.subrange(c1, h1) =~= t1.subrange(c1, h1));
            assert(t.subrange(h1, h1 + x) =~= t2.subrange(0, x));
            assert(rhs[k] == g1.last() + g2[0]);
        } else {
            let j = k - n1;
            assert(m[k - 1] == (m2[j - 1].0 + h1, m2[j - 1].1 + h1, m2[j - 1].2));
            assert(matching::cursor_at(m, k) == h1 + matching::cursor_at(m2, j));
            let y = if j < n2 {
                m2[j].0
            } else {
                hold2
            };
            if j < n2 {
                assert(m[k] == (m2[j].0 + h1, m2[j].1 + h1, m2[j].2));
                assert(m2[j - 1].1 <= m2[j].0);
            }
            assert(t.subrange(h1 + matching::cursor_at(m2, j), h1 + y) =~= t2.subrange(
                matching::cursor_at(m2, j),
                y,
            ));
            assert(rhs[k] == g2[j]);
        }
    }
    assert(lhs =~= rhs);
}

/// The settled matches of a valid text lie in order on character
/// boundaries, before the character boundary where text is held back.
proof fn lemma_settled_boundaries(tags: Seq<TagView>, x: Seq<u8>)
    requires
        closes_nonempty(tags),
        valid_utf8(x),
    ensures
        forall|k: int|
            0 <= k < scan_matches(tags, x).len() ==> 0 <= #[trigger] scan_matches(tags, x)[k].0
                <= scan_matches(tags, x)[k].1 <= x.len() && is_char_boundary(x, scan_matches(tags, x)[k].0)
                && is_char_boundary(x, scan_matches(tags, x)[k].1),
        forall|k: int|
            0 <= k < scan_matches(tags, x).len() - 1 ==> #[trigger] scan_matches(tags, x)[k].1
                <= scan_matches(tags, x)[k + 1].0,
        matching::cursor_at(scan_matches(tags, x), scan_matches(tags, x).len() as int) <= scan_hold(tags, x) <= x.len(),
        is_char_boundary(x, scan_hold(tags, x)),
{
    let m = scan_matches(tags, x);
    let pats = scan_patterns(tags);
    lemma_tag_patterns_nonempty(tags);
    matching::lemma_settled(tag_patterns(tags), x);
    assert forall|k: int| 0 <= k < m.len() implies 0 <= #[trigger] m[k].0 <= m[k].1 <= x.len()
        && is_char_boundary(x, m[k].0) && is_char_boundary(x, m[k].1) by {
        let p = m[k].2;
        assert(matching::occurs_at(x, pats[p], m[k].0));
        encode_utf8_valid_utf8(tag_patterns(tags)[p]);
        text::lemma_occurrence_boundaries(x, pats[p], m[k].0);
    }
    if m.len() > 0 {
        assert(m.last() == m[m.len() - 1]);
    }
}

/// The count of open tags after the tag events `events`, from `p0`: each
/// opening tag adds one, unless the count is at its largest, and each
/// closing tag takes one away, unless the count is zero.
pub open spec fn count_open(p0: nat, events: Seq<EventView>) -> nat
    decreases events.len(),
{
    if events.len() == 0 {
        p0
    } else {
        let q = count_open(p0, events.drop_last());
        match events.last() {
            EventView::Open(_) => if q < usize::MAX {
                q + 1
            } else {
                q
            },
            EventView::Close(_) => if q > 0 {
                (q - 1) as nat
            } else {
                0
            },
            EventView::Raw(_) => q,
        }
    }
}

/// The count kept along matches is the count over their tag events.
proof fn lemma_pending_counts(tags: Seq<TagView>, p0: nat, m: Seq<(int, int, int)>)
    requires
        forall|k: int| 0 <= k < m.len() ==> 0 <= #[trigger] m[k].2 < searched(tags).len(),
    ensures
        pending_after(tags, p0, m) == count_open(p0, match_tags(tags, m)),
    decreases m.len(),
{
    if m.len() > 0 {
        let prev = m.drop_last();
        assert forall|k: int| 0 <= k < prev.len() implies 0 <= #[trigger] prev[k].2 < searched(tags).len() by {
            assert(prev[k] == m[k]);
        }
        lemma_pending_counts(tags, p0, prev);
        let mt = match_tags(tags, m);
        assert(mt.drop_last() =~= match_tags(tags, prev));
        assert(m.last() == m[m.len() - 1]);
        assert(mt.last() == tag_event(tags, m.last().2));
    }
}

/// The count of open tags a successful `feed` leaves is the count before,
/// moved on by the tag events it emits: one more for each opening tag, one
/// less for each closing tag, never below zero.
pub proof fn lemma_feed_pending(
    s: ScannerView,
    chunk: Seq<char>,
    after: ScannerView,
    res: Result<Vec<Event>, ScannerError>,
)
    requires
        closes_nonempty(s.tags),
        feed_spec(s, chunk, after, res),
        res is Ok,
    ensures
        after.pending == count_open(s.pending, tag_events(events_view(res->Ok_0@))),
{
    let h = encode_utf8(s.buffer + chunk);
    let m = scan_matches(s.tags, h);
    encode_utf8_valid_utf8(s.buffer + chunk);
    lemma_tag_patterns_nonempty(s.tags);
    matching::lemma_settled(tag_patterns(s.tags), h);
    assert forall|k: int| 0 <= k < m.len() implies 0 <= #[trigger] m[k].2 < searched(s.tags).len() by {}
    lemma_pending_counts(s.tags, s.pending, m);
    lemma_scan_tags(s, h);
}

/// When `feed` refuses a chunk: while a tag is open, a chunk without `<`
/// is refused exactly when its own bytes exceed the limit; otherwise a chunk
/// is refused exactly when the text held back and the chunk together exceed
/// it. A refusal is a buffer overflow that reports the limit and leaves the
/// scanner as it was; an accepted chunk is scanned.
pub proof fn lemma_feed_refusal(
    s: ScannerView,
    chunk: Seq<char>,
    after: ScannerView,
    res: Result<Vec<Event>, ScannerError>,
)
    requires
        feed_spec(s, chunk, after, res),
    ensures
        s.pending > 0 && !chunk.contains('<') ==> (res is Err <==> encode_utf8(chunk).len()
            > s.max_buffer),
        !(s.pending > 0 && !chunk.contains('<')) ==> (res is Err <==> encode_utf8(
            s.buffer + chunk,
        ).len() > s.max_buffer),
        res is Err ==> after == s && is_overflow(res, s.max_buffer),
        res is Ok ==> after == scan_state(s, encode_utf8(s.buffer + chunk)),
{
}

/// The bytes scanned by feeding `a`, then `b`, and by feeding both at once:
/// the second scan sees what the first held back followed by `b`, which is
/// the whole from where the first holds back.
proof fn lemma_split_bytes(s: ScannerView, a: Seq<char>, b: Seq<char>)
    requires
        closes_nonempty(s.tags),
    ensures
        ({
            let tags = s.tags;
            let pats = scan_patterns(tags);
            let s1 = scan_state(s, encode_utf8(s.buffer + a));
            let t1 = encode_utf8(s.buffer + a);
            let ub = encode_utf8(b);
            let t = encode_utf8(s.buffer + (a + b));
            let t2 = encode_utf8(s1.buffer + b);
            let h1 = scan_hold(tags, t1);
            &&& forall|j: int| 0 <= j < pats.len() ==> #[trigger] pats[j].len() > 0
            &&& t == t1 + ub
            &&& valid_utf8(t1) && valid_utf8(ub) && valid_utf8(t) && valid_utf8(t2)
            &&& 0 <= h1 <= t1.len()
            &&& t2 == t1.subrange(h1, t1.len() as int) + ub
            &&& t.subrange(h1, t.len() as int) == t2
            &&& scan_matches(tags, t) == scan_matches(tags, t1) + matching::shift_matches(
                scan_matches(tags, t2),
                h1,
            )
            &&& scan_hold(tags, t) == h1 + scan_hold(tags, t2)
        }),
{
    let tags = s.tags;
    let s1 = scan_state(s, encode_utf8(s.buffer + a));
    let pats = scan_patterns(tags);
    let t1 = encode_utf8(s.buffer + a);
    let ub = encode_utf8(b);
    let t = encode_utf8(s.buffer + (a + b));
    assert(s.buffer + (a + b) =~= (s.buffer + a) + b);
    text::lemma_encode_utf8_concat(s.buffer + a, b);
    lemma_tag_patterns_nonempty(tags);
    assert forall|j: int| 0 <= j < pats.len() implies #[trigger] pats[j].len() > 0 by {
        let p = tag_patterns(tags)[j];
        encode_utf8_decode_utf8(p);
        if pats[j].len() == 0 {
            assert(pats[j] =~= Seq::<u8>::empty());
            assert(decode_utf8(Seq::<u8>::empty()) =~= Seq::<char>::empty());
        }
    }
    let h1 = scan_hold(tags, t1);
    matching::lemma_settled_split(pats, t1, ub);
    encode_utf8_valid_utf8(s.buffer + a);
    encode_utf8_valid_utf8(s.buffer + (a + b));
    encode_utf8_valid_utf8(b);
    matching::lemma_settled(tag_patterns(tags), t1);
    is_char_boundary_start_end_of_seq(t1);
    text::lemma_boundary_in_suffix(t1, h1, t1.len() as int);
    let rest1 = t1.subrange(h1, t1.len() as int);
    decode_utf8_encode_utf8(rest1);
    assert(encode_utf8(s1.buffer) == rest1);
    text::lemma_encode_utf8_concat(s1.buffer, b);
    encode_utf8_valid_utf8(s1.buffer + b);
}

/// Feeding `a` and then `b` leaves the scanner that feeding both at once
/// leaves.
#[verifier::rlimit(60)]
proof fn lemma_scan_split_state(s: ScannerView, a: Seq<char>, b: Seq<char>)
    requires
        closes_nonempty(s.tags),
    ensures
        ({
            let s1 = scan_state(s, encode_utf8(s.buffer + a));
            scan_state(s1, encode_utf8(s1.buffer + b)) == scan_state(s, encode_utf8(s.buffer + (a + b)))
        }),
{
    lemma_split_bytes(s, a, b);
    let tags = s.tags;
    let s1 = scan_state(s, encode_utf8(s.buffer + a));
    let t1 = encode_utf8(s.buffer + a);
    let t = encode_utf8(s.buffer + (a + b));
    let t2 = encode_utf8(s1.buffer + b);
    let h1 = scan_hold(tags, t1);
    let held2 = scan_hold(tags, t2);
    lemma_tag_patterns_nonempty(tags);
    matching::lemma_settled(tag_patterns(tags), t2);
    assert forall|i: int| 0 <= i < t2.len() - held2 implies t.subrange(h1 + held2, t.len() as int)[i]
        == t2.subrange(held2, t2.len() as int)[i] by {
        assert(t.subrange(h1, t.len() as int)[held2 + i] == t2[held2 + i]);
    }
    assert(t.subrange(h1 + held2, t.len() as int) =~= t2.subrange(held2, t2.len() as int));
    lemma_pending_concat(tags, s.pending, scan_matches(tags, t1), scan_matches(tags, t2), h1);
    assert(scan_state(s1, t2) =~= scan_state(s, t));
}

/// Feeding `a` and then `b` gives the tag events, and the raw text between
/// them, that feeding both at once gives.
#[verifier::rlimit(60)]
proof fn lemma_scan_split_events(s: ScannerView, a: Seq<char>, b: Seq<char>)
    requires
        closes_nonempty(s.tags),
    ensures
        ({
            let s1 = scan_state(s, encode_utf8(s.buffer + a));
            let e1 = scan_events(s, encode_utf8(s.buffer + a));
            let e2 = scan_events(s1, encode_utf8(s1.buffer + b));
            let e3 = scan_events(s, encode_utf8(s.buffer + (a + b)));
            &&& tag_events(e1 + e2) == tag_events(e3)
            &&& raw_between(e1 + e2) == raw_between(e3)
        }),
{
    lemma_split_bytes(s, a, b);
    let tags = s.tags;
    let s1 = scan_state(s, encode_utf8(s.buffer + a));
    let t1 = encode_utf8(s.buffer + a);
    let ub = encode_utf8(b);
    let t = encode_utf8(s.buffer + (a + b));
    let t2 = encode_utf8(s1.buffer + b);
    let h1 = scan_hold(tags, t1);
    let held2 = scan_hold(tags, t2);
    let e1 = scan_events(s, t1);
    let e2 = scan_events(s1, t2);
    let e3 = scan_events(s, t);
    lemma_events_concat(e1, e2);
    lemma_scan_tags(s, t1);
    lemma_scan_tags(s1, t2);
    lemma_scan_tags(s, t);
    assert(match_tags(tags, scan_matches(tags, t)) =~= match_tags(tags, scan_matches(tags, t1))
        + match_tags(tags, scan_matches(tags, t2)));
    lemma_raw_between_concat(e1, e2);
    lemma_scan_between(s, t1);
    lemma_scan_between(s1, t2);
    lemma_scan_between(s, t);
    lemma_settled_boundaries(tags, t1);
    lemma_settled_boundaries(tags, t2);
    lemma_segments_join(t1, ub, scan_matches(tags, t1), h1, scan_matches(tags, t2), held2);
}

/// Scanning `a` and then, from the scanner that leaves, `b`, gives the same
/// tag events, raw text between them and text in all as scanning `a`
/// followed by `b`, and leaves the same scanner.
proof fn lemma_scan_split(s: ScannerView, a: Seq<char>, b: Seq<char>)
    requires
        closes_nonempty(s.tags),
    ensures
        ({
            let s1 = scan_state(s, encode_utf8(s.buffer + a));
            let e1 = scan_events(s, encode_utf8(s.buffer + a));
            let e2 = scan_events(s1, encode_utf8(s1.buffer + b));
            let e3 = scan_events(s, encode_utf8(s.buffer + (a + b)));
            &&& tag_events(e1 + e2) == tag_events(e3)
            &&& raw_between(e1 + e2) == raw_between(e3)
            &&& events_text(e1 + e2) == events_text(e3)
            &&& scan_state(s1, encode_utf8(s1.buffer + b)) == scan_state(
                s,
                encode_utf8(s.buffer + (a + b)),
            )
        }),
{
    lemma_scan_split_state(s, a, b);
    lemma_scan_split_events(s, a, b);
    let s1 = scan_state(s, encode_utf8(s.buffer + a));
    let s2 = scan_state(s1, encode_utf8(s1.buffer + b));
    let s3 = scan_state(s, encode_utf8(s.buffer + (a + b)));
    let e1 = scan_events(s, encode_utf8(s.buffer + a));
    let e2 = scan_events(s1, encode_utf8(s1.buffer + b));
    let e3 = scan_events(s, encode_utf8(s.buffer + (a + b)));
    lemma_events_concat(e1, e2);
    lemma_scan_conserves_text(s, s.buffer + a);
    lemma_scan_conserves_text(s1, s1.buffer + b);
    lemma_scan_conserves_text(s, s.buffer + (a + b));
    let x = events_text(e1) + events_text(e2);
    let y = events_text(e3);
    assert(x + s2.buffer =~= events_text(e1) + (events_text(e2) + s2.buffer));
    assert(events_text(e1) + (s1.buffer + b) =~= (events_text(e1) + s1.buffer) + b);
    assert((s.buffer + a) + b =~= s.buffer + (a + b));
    assert(x + s2.buffer == y + s3.buffer);
    assert(x =~= y) by {
        assert(x.len() == y.len());
        assert forall|i: int| 0 <= i < x.len() implies x[i] == y[i] by {
            assert((x + s2.buffer)[i] == (y + s3.buffer)[i]);
        }
    }
}

/// The chunks one after another, as one text.
pub open spec fn concat_chunks(cs: Seq<Seq<char>>) -> Seq<char>
    decreases cs.len(),
{
    if cs.len() == 0 {
        seq![]
    } else {
        concat_chunks(cs.drop_last()) + cs.last()
    }
}

/// The scanner after feeding the chunks `cs` one after another.
pub open spec fn chunks_state(s: ScannerView, cs: Seq<Seq<char>>) -> ScannerView
    decreases cs.len(),
{
    if cs.len() == 0 {
        s
    } else {
        feed_state(chunks_state(s, cs.drop_last()), cs.last())
    }
}

/// Every chunk of `cs` is accepted when they are fed one after another.
pub open spec fn chunks_ok(s: ScannerView, cs: Seq<Seq<char>>) -> bool
    decreases cs.len(),
{
    if cs.len() == 0 {
        true
    } else {
        chunks_ok(s, cs.drop_last()) && feed_ok(chunks_state(s, cs.drop_last()), cs.last())
    }
}

/// All the events of feeding the chunks `cs` one after another.
pub open spec fn chunks_events(s: ScannerView, cs: Seq<Seq<char>>) -> Seq<EventView>
    decreases cs.len(),
{
    if cs.len() == 0 {
        seq![]
    } else {
        chunks_events(s, cs.drop_last()) + feed_events(chunks_state(s, cs.drop_last()), cs.last())
    }
}

/// After a scan the scanner holds back nothing, or the beginning of a literal.
proof fn lemma_scan_holds_tag_start(s: ScannerView, b: Seq<char>)
    requires
        closes_nonempty(s.tags),
    ensures
        holds_tag_start(scan_state(s, encode_utf8(b))),
{
    let h = encode_utf8(b);
    let pats = scan_patterns(s.tags);
    let hold = scan_hold(s.tags, h);
    encode_utf8_valid_utf8(b);
    lemma_tag_patterns_nonempty(s.tags);
    matching::lemma_settled(tag_patterns(s.tags), h);
    lemma_scan_conserves_text(s, b);
    let rest = h.subrange(hold, h.len() as int);
    if hold < h.len() {
        let i = choose|i: int| 0 <= i < pats.len() && #[trigger] matching::is_partial(pats[i], h, hold);
        assert(rest.subrange(0, rest.len() as int) =~= h.subrange(hold, h.len() as int));
        assert(matching::is_partial(pats[i], rest, 0));
    }
}

/// Scanning what a scanner holds back gives no event and changes nothing.
proof fn lemma_scan_held(s: ScannerView)
    requires
        holds_tag_start(s),
    ensures
        scan_events(s, encode_utf8(s.buffer)) == Seq::<EventView>::empty(),
        scan_state(s, encode_utf8(s.buffer)) == s,
{
    let t = encode_utf8(s.buffer);
    let pats = scan_patterns(s.tags);
    let m = matching::leftmost_first_matches(pats, t, 0);
    assert(matching::hold_from(pats, t, 0) == 0) by {
        if t.len() > 0 {
            assert(matching::partial_at(pats, t, 0));
        }
    }
    matching::lemma_matches_wf(pats, t, 0);
    if m.len() > 0 {
        assert(0 <= m[0].0);
    }
    assert(matching::settled_count(pats, t, m, 0) == 0);
    assert(m.take(0) =~= Seq::<(int, int, int)>::empty());
    assert(scan_matches(s.tags, t) =~= Seq::<(int, int, int)>::empty());
    assert(scan_end(s.tags, t) == 0);
    assert(scan_hold(s.tags, t) == 0);
    assert(t.subrange(0, t.len() as int) =~= t);
    encode_utf8_decode_utf8(s.buffer);
    assert(scan_state(s, t) =~= s);
    assert(scan_events(s, t) =~= Seq::<EventView>::empty());
}

/// Feeding chunks one after another, each accepted, comes to scanning them
/// at once.
proof fn lemma_chunks_scan(s: ScannerView, cs: Seq<Seq<char>>)
    requires
        closes_nonempty(s.tags),
        holds_tag_start(s),
        chunks_ok(s, cs),
    ensures
        ({
            let whole = encode_utf8(s.buffer + concat_chunks(cs));
            &&& chunks_state(s, cs) == scan_state(s, whole)
            &&& tag_events(chunks_events(s, cs)) == tag_events(scan_events(s, whole))
            &&& raw_between(chunks_events(s, cs)) == raw_between(scan_events(s, whole))
            &&& events_text(chunks_events(s, cs)) == events_text(scan_events(s, whole))
        }),
    decreases cs.len(),
{
    if cs.len() == 0 {
        assert(s.buffer + concat_chunks(cs) =~= s.buffer);
        lemma_scan_held(s);
    } else {
        let prev = cs.drop_last();
        let c = cs.last();
        lemma_chunks_scan(s, prev);
        let cp = concat_chunks(prev);
        let sp = chunks_state(s, prev);
        let e0 = chunks_events(s, prev);
        let f = feed_events(sp, c);
        lemma_scan_split(s, cp, c);
        assert(concat_chunks(cs) == cp + c);
        let ep = scan_events(s, encode_utf8(s.buffer + cp));
        lemma_events_concat(e0, f);
        lemma_events_concat(ep, f);
        lemma_raw_between_concat(e0, f);
        lemma_raw_between_concat(ep, f);
    }
}

/// Where a text is split into chunks does not change what the scanner does:
/// feeding the chunks `cs` one after another, each accepted, gives the same
/// tag events, in order, the same raw text between each two of them and the
/// same text in all as feeding them at once, and leaves the scanner in the
/// same state; only a raw piece may come out in parts.
pub proof fn lemma_chunks_split_independent(s: ScannerView, cs: Seq<Seq<char>>)
    requires
        closes_nonempty(s.tags),
        holds_tag_start(s),
        chunks_ok(s, cs),
        feed_ok(s, concat_chunks(cs)),
    ensures
        tag_events(chunks_events(s, cs)) == tag_events(feed_events(s, concat_chunks(cs))),
        raw_between(chunks_events(s, cs)) == raw_between(feed_events(s, concat_chunks(cs))),
        events_text(chunks_events(s, cs)) == events_text(feed_events(s, concat_chunks(cs))),
        chunks_state(s, cs) == feed_state(s, concat_chunks(cs)),
{
    lemma_chunks_scan(s, cs);
}

/// The chunks fed one after another, each accepted, come out again, in
/// order: the text of all the events, followed by the text then held back,
/// is the text held back before followed by the chunks.
pub proof fn lemma_chunks_conserve_text(s: ScannerView, cs: Seq<Seq<char>>)
    requires
        closes_nonempty(s.tags),
        holds_tag_start(s),
        chunks_ok(s, cs),
    ensures
        events_text(chunks_events(s, cs)) + chunks_state(s, cs).buffer == s.buffer + concat_chunks(cs),
{
    lemma_chunks_scan(s, cs);
    lemma_scan_conserves_text(s, s.buffer + concat_chunks(cs));
}

/// An empty chunk gives no event, and, when it is accepted, changes nothing.
pub proof fn lemma_empty_chunk(s: ScannerView)
    requires
        holds_tag_start(s),
    ensures
        feed_events(s, Seq::<char>::empty()) == Seq::<EventView>::empty(),
        feed_state(s, Seq::<char>::empty()) == s,
        s.pending > 0 ==> feed_ok(s, Seq::<char>::empty()),
{
    assert(s.buffer + Seq::<char>::empty() =~= s.buffer);
    lemma_scan_held(s);
    assert(encode_utf8(Seq::<char>::empty()) =~= Seq::<u8>::empty());
}

/// The scanner holds back nothing, or the beginning of a literal it searches
/// for, short of the whole literal.
pub open spec fn holds_tag_start(s: ScannerView) -> bool {
    encode_utf8(s.buffer).len() == 0 || matching::partial_at(
        scan_patterns(s.tags),
        encode_utf8(s.buffer),
        0,
    )
}

/// A streaming tag scanner that can handle cross-chunk matches.
/// Tags are treated as literal strings defined in `Tag` pairs.
pub struct Scanner {
    tags: Vec<Tag>,
    patterns: Vec<String>,
    pattern_tags: Vec<(usize, bool)>,
    buf: String,
    max_buffer: usize,
    pending: usize,
}

/// The views of a sequence of tags.
pub open spec fn tags_view(tags: Seq<Tag>) -> Seq<TagView> {
    tags.map_values(|t: Tag| t@)
}

impl View for Scanner {
    type V = ScannerView;

    closed spec fn view(&self) -> ScannerView {
        ScannerView {
            tags: tags_view(self.tags@),
            buffer: self.buf@,
            max_buffer: self.max_buffer as nat,
            pending: self.pending as nat,
        }
    }
}

impl Scanner {
    /// The scanner searches for the literals of its tags, which build an
    /// automaton, and holds back no more than its buffer limit.
    pub closed spec fn wf(&self) -> bool {
        let tv = tags_view(self.tags@);
        &&& self.patterns.deep_view() == tag_patterns(tv)
        &&& self.pattern_tags@.len() == searched(tv).len()
        &&& forall|k: int|
            0 <= k < searched(tv).len() ==> (#[trigger] self.pattern_tags@[k]).0 == searched(tv)[k].1
                && self.pattern_tags@[k].1 == searched(tv)[k].2
        &&& closes_nonempty(tv)
        &&& matching::automaton_builds(self.patterns.deep_view())
        &&& holds_tag_start(self@)
    }

    /// The literals the scanner searches for.
    pub closed spec fn literals(&self) -> Seq<Seq<char>> {
        self.patterns.deep_view()
    }

    /// A well-formed scanner searches for the closing literal of every one of
    /// its tags, and for the opening literal of every tag whose opening
    /// literal is not empty.
    pub proof fn lemma_searches_every_tag(&self)
        requires
            self.wf(),
        ensures
            self.literals() == tag_patterns(self@.tags),
            forall|i: int|
                0 <= i < self@.tags.len() ==> #[trigger] self.literals().contains(self@.tags[i].close),
            forall|i: int|
                0 <= i < self@.tags.len() && self@.tags[i].open.len() > 0 ==> #[trigger] self.literals().contains(
                    self@.tags[i].open,
                ),
    {
        let tv = self@.tags;
        lemma_searched_complete(tv);
        assert forall|i: int|
            0 <= i < tv.len() && tv[i].open.len() > 0 implies #[trigger] self.literals().contains(tv[i].open) by {
            assert(searches_open(tv, i));
            let k = choose|k: int| 0 <= k < searched(tv).len() && searched(tv)[k] == (tv[i].open, i, true);
            assert(tag_patterns(tv)[k] == tv[i].open);
        }
    }

    /// A well-formed scanner's closing literals are not empty, and what it
    /// holds back is the beginning of a literal.
    pub proof fn lemma_wf_closes(&self)
        requires
            self.wf(),
        ensures
            closes_nonempty(self@.tags),
            holds_tag_start(self@),
    {
    }

    /// Create a new scanner.
    ///
    /// `tags`: List of `Tag` pairs defining the open/close literals.
    /// `max_buffer`: Maximum bytes to buffer waiting for a match end.
    pub fn new(tags: &[Tag], max_buffer: usize) -> (res: Result<Self, ScannerError>)
        ensures
            res is Ok <==> matching::automaton_builds(tag_patterns(tags_view(tags@))),
            res matches Ok(s) ==> {
                &&& s.wf()
                &&& s@.tags == tags_view(tags@)
                &&& s.literals() == tag_patterns(tags_view(tags@))
                &&& s@.buffer.len() == 0
                &&& s@.max_buffer == max_buffer
                &&& s@.pending == 0
            },
            res matches Err(e) ==> e is AhoCorasickBuildError,
    {
        let mut patterns_flat: Vec<String> = Vec::new();
        let mut pattern_tags: Vec<(usize, bool)> = Vec::new();
        let mut kept: Vec<Tag> = Vec::new();
        let ghost tv = tags_view(tags@);
        let mut i: usize = 0;
        assert(tv.take(0) =~= seq![]);
        while i < tags.len()
            invariant
                i <= tags@.len(),
                tv == tags_view(tags@),
                kept@.len() == i,
                forall|j: int| 0 <= j < i ==> (#[trigger] kept@[j])@ == tv[j],
                forall|j: int| 0 <= j < i ==> tv[j].close.len() > 0,
                patterns_flat.deep_view() == tag_patterns(tv.take(i as int)),
                pattern_tags@.len() == searched(tv.take(i as int)).len(),
                forall|k: int|
                    0 <= k < pattern_tags@.len() ==> (#[trigger] pattern_tags@[k]).0 == searched(
                        tv.take(i as int),
                    )[k].1 && pattern_tags@[k].1 == searched(tv.take(i as int))[k].2,
            decreases tags@.len() - i,
        {
            let tag = &tags[i];
            proof {
                use_type_invariant(tag);
            }
            let ghost before = searched(tv.take(i as int));
            let ghost pv = patterns_flat.deep_view();
            let ghost tv_before = pattern_tags@;
            let ghost next = tv.take(i + 1);
            assert(next.drop_last() =~= tv.take(i as int));
            assert(next.last() == tv[i as int]);
            assert(tv[i as int] == tag@);
            if !tag.open.as_str().is_empty() {
                patterns_flat.push(tag.open.clone());
                pattern_tags.push((i, true));
            }
            patterns_flat.push(tag.close.clone());
            pattern_tags.push((i, false));
            kept.push(tag.clone());
            proof {
                let after = searched(next);
                if tag@.open.len() > 0 {
                    assert(after =~= before + seq![(tag@.open, i as int, true), (tag@.close, i as int, false)]);
                    assert(pattern_tags@ =~= tv_before + seq![(i, true), (i, false)]);
                    assert(patterns_flat.deep_view() =~= pv + seq![tag@.open, tag@.close]);
                } else {
                    assert(after =~= before + seq![(tag@.close, i as int, false)]);
                    assert(pattern_tags@ =~= tv_before + seq![(i, false)]);
                    assert(patterns_flat.deep_view() =~= pv + seq![tag@.close]);
                }
                assert(tag_patterns(next) =~= patterns_flat.deep_view());
                assert forall|k: int| 0 <= k < pattern_tags@.len() implies (#[trigger] pattern_tags@[k]).0 == after[k].1
                    && pattern_tags@[k].1 == after[k].2 by {
                    if k < tv_before.len() {
                        assert(pattern_tags@[k] == tv_before[k]);
                        assert(after[k] == before[k]);
                    }
                }
            }
            i = i + 1;
        }
        assert(tv.take(i as int) =~= tv);
        assert(tags_view(kept@) =~= tv);
        match build_leftmost_first(&patterns_flat) {
            Ok(()) => {},
            Err(e) => {
                return Err(ScannerError::AhoCorasickBuildError(e));
            },
        }
        proof {
            assert(encode_utf8(Seq::<char>::empty()) =~= Seq::<u8>::empty());
        }
        Ok(
            Scanner {
                tags: kept,
                patterns: patterns_flat,
                pattern_tags,
                buf: String::new(),
                max_buffer,
                pending: 0,
            },
        )
    }

    /// Feed the scanner a new chunk of text.
    ///
    /// Returns a list of `Event`s found within the chunk and potentially
    /// carried over from previous chunks. May return
    /// `Err(ScannerError::BufferOverflow)` if no match completes within
    /// `max_buffer` bytes: while a tag is open a chunk without `<` counts on
    /// its own, otherwise the text held back counts with the chunk. A refused
    /// chunk leaves the scanner as it was.
    pub fn feed(&mut self, chunk: &str) -> (res: Result<Vec<Event>, ScannerError>)
        requires
            old(self).wf(),
        ensures
            final(self).wf(),
            feed_spec(old(self)@, chunk@, final(self)@, res),
    {
        let ghost s0 = self@;
        let ghost tv = s0.tags;
        let ghost p0 = s0.pending;
        let ghost pats = scan_patterns(tv);
        proof {
            text::lemma_encode_utf8_concat(s0.buffer, chunk@);
        }
        let held = self.buf.as_str().as_bytes().len();
        let chunk_len = chunk.as_bytes().len();
        // While a tag is open, a chunk without '<' counts on its own.
        let over = if self.pending > 0 && !text::contains_open_angle(chunk) {
            chunk_len > self.max_buffer
        } else {
            held > self.max_buffer || chunk_len > self.max_buffer - held
        };
        if over {
            return Err(ScannerError::BufferOverflow(self.max_buffer));
        }
        let mut text = self.buf.clone();
        text.append(chunk);
        let buf_str = text.as_str();
        let ghost h = buf_str.spec_bytes();
        assert(buf_str@ == s0.buffer + chunk@);
        proof {
            encode_utf8_valid_utf8(buf_str@);
            lemma_tag_patterns_nonempty(tv);
            matching::lemma_settled(tag_patterns(tv), h);
        }
        let (found, hold) = match matching::settle(&self.patterns, buf_str) {
            Ok(r) => r,
            Err(e) => {
                return Err(ScannerError::AhoCorasickBuildError(e));
            },
        };
        let ghost m = matching::matches_view(found@);
        assert(m == scan_matches(tv, h));
        proof {
            lemma_searched(tv);
        }
        let mut out: Vec<Event> = Vec::new();
        let mut last_match_end: usize = 0;
        let mut k: usize = 0;
        assert(m.take(0) =~= seq![]);
        while k < found.len()
            invariant
                self.wf(),
                self@.tags == s0.tags,
                self@.buffer == s0.buffer,
                self@.max_buffer == s0.max_buffer,
                tv == s0.tags,
                buf_str@ == s0.buffer + chunk@,
                h == buf_str.spec_bytes(),
                valid_utf8(h),
                feed_ok(s0, chunk@),
                pats == scan_patterns(tv),
                m == matching::matches_view(found@),
                matching::matches_wf(pats, h, m, 0),
                k <= m.len(),
                events_view(out@) == match_events(tv, h, m.take(k as int)),
                last_match_end == matching::end_of_matches(m.take(k as int)),
                last_match_end <= h.len(),
                is_char_boundary(h, last_match_end as int),
                k > 0 ==> last_match_end == m[k - 1].1,
                self.pending == pending_after(tv, p0, m.take(k as int)),
                forall|j: int|
                    0 <= j < searched(tv).len() ==> {
                        &&& 0 <= (#[trigger] searched(tv)[j]).1 < tv.len()
                    },
            decreases m.len() - k,
        {
            let (start, end, pattern_id) = found[k];
            assert(m[k as int] == (start as int, end as int, pattern_id as int));
            let ghost pat = pats[pattern_id as int];
            proof {
                encode_utf8_valid_utf8(tag_patterns(tv)[pattern_id as int]);
                assert(h.subrange(start as int, start + pat.len()) == pat);
                text::lemma_occurrence_boundaries(h, pat, start as int);
                if k > 0 {
                    assert(m[k - 1].1 <= m[k as int].0);
                }
            }
            let ghost prefix = m.take(k as int);
            let ghost next = m.take(k + 1);
            assert(next.drop_last() =~= prefix);
            assert(next.last() == m[k as int]);
            if start > last_match_end {
                let piece = byte_range(buf_str, last_match_end, start);
                out.push(Event::Raw(piece.to_owned()));
            }
            let (tag_index, opens) = self.pattern_tags[pattern_id];
            let tag = &self.tags[tag_index];
            if opens {
                out.push(Event::Open(tag.clone()));
                self.pending = self.pending.saturating_add(1);
            } else {
                out.push(Event::Close(tag.clone()));
                self.pending = self.pending.saturating_sub(1);
            }
            last_match_end = end;
            assert(events_view(out@) =~= match_events(tv, h, next));
            k = k + 1;
        }
        assert(m.take(k as int) =~= m);
        let total = buf_str.as_bytes().len();
        if hold > last_match_end {
            // Text that no literal can still claim goes out at once.
            let piece = byte_range(buf_str, last_match_end, hold);
            out.push(Event::Raw(piece.to_owned()));
        }
        assert(events_view(out@) =~= scan_events(s0, h));
        proof {
            is_char_boundary_start_end_of_seq(h);
        }
        // Hold back what a literal could still claim once more text arrives.
        let kept = byte_range(buf_str, hold, total).to_owned();
        self.buf = kept;
        proof {
            lemma_scan_conserves_text(s0, s0.buffer + chunk@);
            lemma_scan_holds_tag_start(s0, s0.buffer + chunk@);
        }
        Ok(out)
    }

    /// Call once when the input stream is finished to flush any remaining
    /// buffered raw text (no tags will be emitted here).
    pub fn finish(&mut self) -> (res: Vec<Event>)
        requires
            old(self).wf(),
        ensures
            final(self).wf(),
            final(self)@ == cleared(old(self)@),
            events_view(res@) == finish_events(old(self)@),
    {
        if self.buf.as_str().is_empty() {
            let out: Vec<Event> = Vec::new();
            assert(events_view(out@) =~= seq![]);
            out
        } else {
            // Take the remaining buffer content and emit it as raw text.
            let mut rem = String::new();
            std::mem::swap(&mut rem, &mut self.buf);
            let mut out: Vec<Event> = Vec::new();
            out.push(Event::Raw(rem));
            assert(events_view(out@) =~= finish_events(old(self)@));
            proof {
                assert(encode_utf8(self.buf@) =~= Seq::<u8>::empty());
            }
            out
        }
    }

    /// Reset the buffer to empty.
    pub fn reset_buffer(&mut self)
        requires
            old(self).wf(),
        ensures
            final(self).wf(),
            final(self)@ == cleared(old(self)@),
    {
        self.buf = String::new();
        proof {
            assert(encode_utf8(self.buf@) =~= Seq::<u8>::empty());
        }
    }
}

} // verus!
