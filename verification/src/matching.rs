//! Leftmost-first multi-pattern search, as the `aho_corasick` crate performs it.
use vstd::prelude::*;
use vstd::string::StringSliceAdditionalSpecFns;
use vstd::utf8::*;

use aho_corasick::{AhoCorasick, BuildError, MatchKind};

use crate::text;

verus! {

#[verifier::external_type_specification]
#[verifier::external_body]
pub struct ExBuildError(BuildError);

/// `pat` occurs in `hay` starting at byte `pos`.
pub open spec fn occurs_at(hay: Seq<u8>, pat: Seq<u8>, pos: int) -> bool {
    0 <= pos && pos + pat.len() <= hay.len() && hay.subrange(pos, pos + pat.len()) == pat
}

/// The first pattern, at index `i` or later, that occurs at `pos`.
pub open spec fn first_pattern_at(pats: Seq<Seq<u8>>, hay: Seq<u8>, pos: int, i: int) -> Option<
    int,
>
    decreases pats.len() - i,
{
    if i < 0 || i >= pats.len() {
        None
    } else if occurs_at(hay, pats[i], pos) {
        Some(i)
    } else {
        first_pattern_at(pats, hay, pos, i + 1)
    }
}

/// The non-overlapping leftmost-first matches of the non-empty patterns
/// `pats` in `hay`, searching from byte `from`: the leftmost position at which
/// some pattern occurs, the pattern given first among those that occur there,
/// and the search goes on after the end of that match. Each match is
/// `(start, end, pattern index)`.
pub open spec fn leftmost_first_matches(pats: Seq<Seq<u8>>, hay: Seq<u8>, from: int) -> Seq<
    (int, int, int),
>
    decreases hay.len() + 1 - from,
{
    if from < 0 || from > hay.len() {
        seq![]
    } else {
        match first_pattern_at(pats, hay, from, 0) {
            Some(i) => if pats[i].len() == 0 {
                seq![]
            } else {
                proof {
                    lemma_first_pattern_at(pats, hay, from, 0);
                }
                seq![(from, from + pats[i].len(), i)] + leftmost_first_matches(
                    pats,
                    hay,
                    from + pats[i].len(),
                )
            },
            None => leftmost_first_matches(pats, hay, from + 1),
        }
    }
}

/// The UTF-8 bytes of each pattern.
pub open spec fn encoded_patterns(pats: Seq<Seq<char>>) -> Seq<Seq<u8>> {
    pats.map_values(|p: Seq<char>| encode_utf8(p))
}

/// No pattern is empty.
pub open spec fn all_nonempty(pats: Seq<Seq<char>>) -> bool {
    forall|i: int| 0 <= i < pats.len() ==> #[trigger] pats[i].len() > 0
}

/// Matches as integers.
pub open spec fn matches_view(found: Seq<(usize, usize, usize)>) -> Seq<(int, int, int)> {
    found.map_values(|m: (usize, usize, usize)| (m.0 as int, m.1 as int, m.2 as int))
}

/// Whether `aho_corasick` builds a leftmost-first automaton from these patterns.
pub uninterp spec fn automaton_builds(patterns: Seq<Seq<char>>) -> bool;

/// Builds a leftmost-first automaton from `patterns` with
/// `AhoCorasickBuilder::build` and reports whether that succeeded. The crate
/// fails only when one of its internal limits (patterns, states, pattern
/// length) is exceeded, which depends on the patterns alone; that outcome is
/// named, not stated.
#[verifier::external_body]
pub(crate) fn build_leftmost_first(patterns: &Vec<String>) -> (res: Result<(), BuildError>)
    ensures
        res is Ok <==> automaton_builds(patterns.deep_view()),
{
    AhoCorasick::builder().match_kind(MatchKind::LeftmostFirst).build(patterns)?;
    Ok(())
}

/// Builds a leftmost-first automaton from `patterns` and collects
/// `AhoCorasick::find_iter` over `haystack` as `(start, end, pattern index)`
/// byte offsets. The contract claims what the crate documents for
/// leftmost-first non-overlapping search, for patterns that are all
/// non-empty; with an empty pattern it claims nothing of the matches. Building
/// succeeds exactly when `build_leftmost_first` does, and always when there is
/// no pattern.
#[verifier::external_body]
pub(crate) fn find_leftmost_first(patterns: &Vec<String>, haystack: &str) -> (res: Result<
    Vec<(usize, usize, usize)>,
    BuildError,
>)
    ensures
        res is Ok <==> automaton_builds(patterns.deep_view()),
        patterns@.len() == 0 ==> res is Ok,
        res matches Ok(found) ==> all_nonempty(patterns.deep_view()) ==> matches_view(found@)
            == leftmost_first_matches(
            encoded_patterns(patterns.deep_view()),
            haystack.spec_bytes(),
            0,
        ),
{
    let ac = AhoCorasick::builder().match_kind(MatchKind::LeftmostFirst).build(patterns)?;
    Ok(ac.find_iter(haystack).map(|m| (m.start(), m.end(), m.pattern().as_usize())).collect())
}

/// Where the last of the matches `m` ends (0 without a match).
pub open spec fn end_of_matches(m: Seq<(int, int, int)>) -> int {
    if m.len() == 0 {
        0
    } else {
        m.last().1
    }
}

/// What the matches found from `from` on satisfy: each is an occurrence of
/// its pattern, they come in order without overlapping, and they lie at or
/// after `from`.
pub open spec fn matches_wf(pats: Seq<Seq<u8>>, hay: Seq<u8>, m: Seq<(int, int, int)>, from: int) -> bool {
    &&& forall|k: int|
        0 <= k < m.len() ==> {
            &&& from <= (#[trigger] m[k]).0
            &&& 0 <= m[k].2 < pats.len()
            &&& m[k].1 == m[k].0 + pats[m[k].2].len()
            &&& pats[m[k].2].len() > 0
            &&& occurs_at(hay, pats[m[k].2], m[k].0)
        }
    &&& forall|k: int| 0 <= k < m.len() - 1 ==> (#[trigger] m[k]).1 <= m[k + 1].0
    &&& from <= hay.len() ==> m.len() <= hay.len() - from
    &&& from > hay.len() ==> m.len() == 0
}

pub proof fn lemma_first_pattern_at(pats: Seq<Seq<u8>>, hay: Seq<u8>, pos: int, i: int)
    requires
        0 <= i,
    ensures
        first_pattern_at(pats, hay, pos, i) matches Some(j) ==> i <= j < pats.len() && occurs_at(
            hay,
            pats[j],
            pos,
        ),
    decreases pats.len() - i,
{
    if i < pats.len() && !occurs_at(hay, pats[i], pos) {
        lemma_first_pattern_at(pats, hay, pos, i + 1);
    }
}

/// No pattern from index `i` on occurs at `pos`: no first pattern there.
pub proof fn lemma_first_pattern_none(pats: Seq<Seq<u8>>, hay: Seq<u8>, pos: int, i: int)
    requires
        forall|j: int| i <= j < pats.len() ==> !occurs_at(hay, #[trigger] pats[j], pos),
    ensures
        first_pattern_at(pats, hay, pos, i) is None,
    decreases pats.len() - i,
{
    if 0 <= i < pats.len() {
        lemma_first_pattern_none(pats, hay, pos, i + 1);
    }
}

/// Where no pattern occurs from `from` on, there is no match.
pub proof fn lemma_no_occurrence_no_match(pats: Seq<Seq<u8>>, hay: Seq<u8>, from: int)
    requires
        forall|j: int, pos: int|
            0 <= j < pats.len() && from <= pos ==> !#[trigger] occurs_at(hay, pats[j], pos),
    ensures
        leftmost_first_matches(pats, hay, from) == Seq::<(int, int, int)>::empty(),
    decreases hay.len() + 1 - from,
{
    if from >= 0 && from <= hay.len() {
        lemma_first_pattern_none(pats, hay, from, 0);
        lemma_no_occurrence_no_match(pats, hay, from + 1);
    }
}

/// The leftmost-first matches of non-empty patterns are well formed.
pub proof fn lemma_matches_wf(pats: Seq<Seq<u8>>, hay: Seq<u8>, from: int)
    requires
        0 <= from,
    ensures
        matches_wf(pats, hay, leftmost_first_matches(pats, hay, from), from),
    decreases hay.len() + 1 - from,
{
    let m = leftmost_first_matches(pats, hay, from);
    if from > hay.len() {
    } else {
        lemma_first_pattern_at(pats, hay, from, 0);
        match first_pattern_at(pats, hay, from, 0) {
            Some(i) => {
                if pats[i].len() == 0 {
                } else {
                    let next = from + pats[i].len();
                    lemma_matches_wf(pats, hay, next);
                    let rest = leftmost_first_matches(pats, hay, next);
                    assert(m == seq![(from, next, i)] + rest);
                    assert forall|k: int| 0 <= k < m.len() - 1 implies (#[trigger] m[k]).1 <= m[k
                        + 1].0 by {
                        if k > 0 {
                            assert(m[k] == rest[k - 1]);
                            assert(m[k + 1] == rest[k]);
                        } else {
                            assert(m[1] == rest[0]);
                        }
                    }
                    assert forall|k: int| 0 <= k < m.len() implies {
                        &&& from <= (#[trigger] m[k]).0
                        &&& 0 <= m[k].2 < pats.len()
                        &&& m[k].1 == m[k].0 + pats[m[k].2].len()
                        &&& pats[m[k].2].len() > 0
                        &&& occurs_at(hay, pats[m[k].2], m[k].0)
                    } by {
                        if k > 0 {
                            assert(m[k] == rest[k - 1]);
                        }
                    }
                }
            },
            None => {
                lemma_matches_wf(pats, hay, from + 1);
            },
        }
    }
}


/// The bytes of `t` from `q` to its end are a non-empty proper beginning of
/// `p`: more text could still complete an occurrence of `p` at `q`.
pub open spec fn is_partial(p: Seq<u8>, t: Seq<u8>, q: int) -> bool {
    &&& 0 <= q < t.len()
    &&& t.len() - q < p.len()
    &&& t.subrange(q, t.len() as int) == p.subrange(0, t.len() - q)
}

/// Some pattern could still be completed at `q`.
pub open spec fn partial_at(pats: Seq<Seq<u8>>, t: Seq<u8>, q: int) -> bool {
    exists|i: int| 0 <= i < pats.len() && #[trigger] is_partial(pats[i], t, q)
}

/// The first position at or after `c` at which some pattern could still be
/// completed by more text, or the end of `t` where there is none.
pub open spec fn hold_from(pats: Seq<Seq<u8>>, t: Seq<u8>, c: int) -> int
    decreases t.len() - c,
{
    if c >= t.len() {
        t.len() as int
    } else if partial_at(pats, t, c) {
        c
    } else {
        hold_from(pats, t, c + 1)
    }
}

/// Where the search stands after the first `k` matches of `m`.
pub open spec fn cursor_at(m: Seq<(int, int, int)>, k: int) -> int {
    if k <= 0 {
        0
    } else {
        m[k - 1].1
    }
}

/// How many of the matches `m` are settled, counting from the `k`-th on: a
/// match is settled when no pattern could still be completed between where
/// the search stands and where the match starts, itself included.
pub open spec fn settled_count(pats: Seq<Seq<u8>>, t: Seq<u8>, m: Seq<(int, int, int)>, k: int) -> int
    decreases m.len() - k,
{
    if k < 0 || k >= m.len() {
        k
    } else if hold_from(pats, t, cursor_at(m, k)) <= m[k].0 {
        k
    } else {
        settled_count(pats, t, m, k + 1)
    }
}

/// The leftmost-first matches in `t` that no further text can change.
pub open spec fn settled_matches(pats: Seq<Seq<u8>>, t: Seq<u8>) -> Seq<(int, int, int)> {
    let m = leftmost_first_matches(pats, t, 0);
    m.take(settled_count(pats, t, m, 0))
}

/// Where the text that must be held back begins: the first position after
/// the settled matches at which a pattern could still be completed.
pub open spec fn held_from(pats: Seq<Seq<u8>>, t: Seq<u8>) -> int {
    hold_from(pats, t, end_of_matches(settled_matches(pats, t)))
}

/// `hold_from` lies between `c` and the end, no pattern could be completed
/// before it, and one could be completed at it unless it is the end.
pub proof fn lemma_hold_from(pats: Seq<Seq<u8>>, t: Seq<u8>, c: int)
    requires
        0 <= c <= t.len(),
    ensures
        c <= hold_from(pats, t, c) <= t.len(),
        hold_from(pats, t, c) < t.len() ==> partial_at(pats, t, hold_from(pats, t, c)),
        forall|q: int| c <= q < hold_from(pats, t, c) ==> !partial_at(pats, t, q),
    decreases t.len() - c,
{
    if c < t.len() && !partial_at(pats, t, c) {
        lemma_hold_from(pats, t, c + 1);
        assert forall|q: int| c <= q < hold_from(pats, t, c) implies !partial_at(pats, t, q) by {
            if q > c {
            }
        }
    }
}

/// Moving the start forward, up to `hold_from`, does not move it.
pub proof fn lemma_hold_from_skip(pats: Seq<Seq<u8>>, t: Seq<u8>, c: int, e: int)
    requires
        0 <= c <= e <= hold_from(pats, t, c),
        c <= t.len(),
    ensures
        hold_from(pats, t, e) == hold_from(pats, t, c),
    decreases e - c,
{
    lemma_hold_from(pats, t, c);
    if c < e {
        lemma_hold_from_skip(pats, t, c + 1, e);
    }
}

/// Matches well formed from `from` stay so when only the first `n` are kept.
pub proof fn lemma_matches_wf_take(pats: Seq<Seq<u8>>, hay: Seq<u8>, m: Seq<(int, int, int)>, from: int, n: int)
    requires
        matches_wf(pats, hay, m, from),
        0 <= n <= m.len(),
    ensures
        matches_wf(pats, hay, m.take(n), from),
{
    let t = m.take(n);
    assert forall|k: int| 0 <= k < t.len() - 1 implies (#[trigger] t[k]).1 <= t[k + 1].0 by {
        assert(t[k] == m[k]);
        assert(t[k + 1] == m[k + 1]);
    }
    assert forall|k: int| 0 <= k < t.len() implies {
        &&& from <= (#[trigger] t[k]).0
        &&& 0 <= t[k].2 < pats.len()
        &&& t[k].1 == t[k].0 + pats[t[k].2].len()
        &&& pats[t[k].2].len() > 0
        &&& occurs_at(hay, pats[t[k].2], t[k].0)
    } by {
        assert(t[k] == m[k]);
    }
}

/// Whether the `n` bytes of `t` from `q` are the first `n` bytes of `p`.
fn bytes_agree(t: &[u8], q: usize, p: &[u8], n: usize) -> (res: bool)
    requires
        q + n <= t@.len(),
        n <= p@.len(),
    ensures
        res == (t@.subrange(q as int, q + n) == p@.subrange(0, n as int)),
{
    let tl = t.len();
    let mut j: usize = 0;
    while j < n
        invariant
            j <= n,
            tl == t@.len(),
            q + n <= t@.len(),
            n <= p@.len(),
            forall|x: int| 0 <= x < j ==> t@[q + x] == p@[x],
        decreases n - j,
    {
        if t[q + j] != p[j] {
            assert(t@.subrange(q as int, q + n)[j as int] != p@.subrange(0, n as int)[j as int]);
            return false;
        }
        j = j + 1;
    }
    assert(t@.subrange(q as int, q + n) =~= p@.subrange(0, n as int));
    true
}

/// Whether some pattern could still be completed at `q`.
fn partial_here(patterns: &Vec<String>, t: &[u8], q: usize) -> (res: bool)
    requires
        q < t@.len(),
    ensures
        res == partial_at(encoded_patterns(patterns.deep_view()), t@, q as int),
{
    let ghost pats = encoded_patterns(patterns.deep_view());
    let rest = t.len() - q;
    let mut i: usize = 0;
    while i < patterns.len()
        invariant
            i <= patterns@.len(),
            q < t@.len(),
            rest == t@.len() - q,
            pats == encoded_patterns(patterns.deep_view()),
            forall|j: int| 0 <= j < i ==> !is_partial(#[trigger] pats[j], t@, q as int),
        decreases patterns@.len() - i,
    {
        let p = patterns[i].as_str().as_bytes();
        assert(p@ == pats[i as int]);
        if rest < p.len() {
            if bytes_agree(t, q, p, rest) {
                assert(t@.subrange(q as int, t@.len() as int) =~= t@.subrange(q as int, q + rest));
                assert(is_partial(pats[i as int], t@, q as int));
                return true;
            }
            assert(t@.subrange(q as int, t@.len() as int) =~= t@.subrange(q as int, q + rest));
        }
        i = i + 1;
    }
    false
}

/// The first position at or after `c` at which a pattern could still be completed.
fn first_partial(patterns: &Vec<String>, t: &[u8], c: usize) -> (res: usize)
    requires
        c <= t@.len(),
    ensures
        res == hold_from(encoded_patterns(patterns.deep_view()), t@, c as int),
{
    let ghost pats = encoded_patterns(patterns.deep_view());
    let mut q = c;
    while q < t.len()
        invariant
            c <= q <= t@.len(),
            pats == encoded_patterns(patterns.deep_view()),
            hold_from(pats, t@, c as int) == hold_from(pats, t@, q as int),
        decreases t@.len() - q,
    {
        if partial_here(patterns, t, q) {
            return q;
        }
        q = q + 1;
    }
    q
}

/// The settled leftmost-first matches of `patterns` in `text`, and where the
/// text that must be held back for more input begins. Searching succeeds
/// exactly when the patterns build an automaton.
#[verifier::rlimit(50)]
pub(crate) fn settle(patterns: &Vec<String>, text: &str) -> (res: Result<
    (Vec<(usize, usize, usize)>, usize),
    BuildError,
>)
    requires
        all_nonempty(patterns.deep_view()),
    ensures
        res is Ok <==> automaton_builds(patterns.deep_view()),
        patterns@.len() == 0 ==> res is Ok,
        res matches Ok(r) ==> {
            let pats = encoded_patterns(patterns.deep_view());
            let t = text.spec_bytes();
            &&& matches_view(r.0@) == settled_matches(pats, t)
            &&& r.1 == held_from(pats, t)
            &&& matches_wf(pats, t, matches_view(r.0@), 0)
            &&& end_of_matches(matches_view(r.0@)) <= r.1 <= t.len()
            &&& is_char_boundary(t, r.1 as int)
            &&& r.1 < t.len() ==> partial_at(pats, t, r.1 as int)
        },
{
    let ghost pats = encoded_patterns(patterns.deep_view());
    let found = match find_leftmost_first(patterns, text) {
        Ok(found) => found,
        Err(e) => {
            return Err(e);
        },
    };
    let t = text.as_bytes();
    let ghost m = matches_view(found@);
    proof {
        lemma_matches_wf(pats, t@, 0);
    }
    let mut hold = first_partial(patterns, t, 0);
    let mut cursor: usize = 0;
    let mut k: usize = 0;
    let mut acc: Vec<(usize, usize, usize)> = Vec::new();
    let mut settled = false;
    assert(m.take(0) =~= seq![]);
    while k < found.len() && !settled
        invariant
            pats == encoded_patterns(patterns.deep_view()),
            t@ == text.spec_bytes(),
            m == matches_view(found@),
            m == leftmost_first_matches(pats, t@, 0),
            matches_wf(pats, t@, m, 0),
            k <= m.len(),
            cursor == cursor_at(m, k as int),
            cursor <= t@.len(),
            hold == hold_from(pats, t@, cursor as int),
            settled_count(pats, t@, m, 0) == if settled {
                k as int
            } else {
                settled_count(pats, t@, m, k as int)
            },
            matches_view(acc@) == m.take(k as int),
        decreases m.len() - k + (if settled { 0int } else { 1int }),
    {
        let (s, e, p) = found[k];
        assert(m[k as int] == (s as int, e as int, p as int));
        if hold <= s {
            settled = true;
        } else {
            proof {
                if k > 0 {
                    assert(m[k - 1].1 <= m[k as int].0);
                }
                assert(occurs_at(t@, pats[p as int], s as int));
            }
            let ghost before = acc@;
            acc.push((s, e, p));
            proof {
                assert(acc@ =~= before.push((s, e, p)));
                assert(matches_view(acc@) =~= matches_view(before).push((s as int, e as int, p as int)));
                assert(m.take(k + 1) =~= m.take(k as int).push(m[k as int]));
            }
            let ghost c0 = cursor;
            cursor = e;
            if hold < e {
                hold = first_partial(patterns, t, e);
            } else {
                proof {
                    lemma_hold_from_skip(pats, t@, c0 as int, e as int);
                }
            }
            k = k + 1;
        }
    }
    proof {
        let n = k as int;
        assert(settled_count(pats, t@, m, 0) == n);
        assert(end_of_matches(m.take(n)) == cursor_at(m, n)) by {
            if n > 0 {
                assert(m.take(n).last() == m[n - 1]);
            }
        }
        encode_utf8_valid_utf8(text@);
        lemma_settled(patterns.deep_view(), t@);
    }
    Ok((acc, hold))
}


/// The count of settled matches from the `k`-th on lies between `k` and the
/// number of matches.
pub proof fn lemma_settled_count(pats: Seq<Seq<u8>>, t: Seq<u8>, m: Seq<(int, int, int)>, k: int)
    requires
        0 <= k <= m.len(),
    ensures
        k <= settled_count(pats, t, m, k) <= m.len(),
    decreases m.len() - k,
{
    if k < m.len() && hold_from(pats, t, cursor_at(m, k)) > m[k].0 {
        lemma_settled_count(pats, t, m, k + 1);
    }
}

/// The settled matches of non-empty patterns in valid UTF-8 are well formed,
/// and the held-back text starts on a character boundary after them, where
/// some pattern could still be completed unless nothing is held back.
pub proof fn lemma_settled(patterns: Seq<Seq<char>>, t: Seq<u8>)
    requires
        valid_utf8(t),
        all_nonempty(patterns),
    ensures
        matches_wf(encoded_patterns(patterns), t, settled_matches(encoded_patterns(patterns), t), 0),
        0 <= end_of_matches(settled_matches(encoded_patterns(patterns), t)) <= held_from(
            encoded_patterns(patterns),
            t,
        ) <= t.len(),
        is_char_boundary(t, held_from(encoded_patterns(patterns), t)),
        held_from(encoded_patterns(patterns), t) < t.len() ==> partial_at(
            encoded_patterns(patterns),
            t,
            held_from(encoded_patterns(patterns), t),
        ),
{
    let pats = encoded_patterns(patterns);
    let m = leftmost_first_matches(pats, t, 0);
    lemma_matches_wf(pats, t, 0);
    lemma_settled_count(pats, t, m, 0);
    let n = settled_count(pats, t, m, 0);
    lemma_matches_wf_take(pats, t, m, 0, n);
    let c = end_of_matches(m.take(n));
    if n > 0 {
        assert(m.take(n).last() == m[n - 1]);
        assert(occurs_at(t, pats[m[n - 1].2], m[n - 1].0));
    }
    lemma_hold_from(pats, t, c);
    let hold = hold_from(pats, t, c);
    if hold < t.len() {
        let i = choose|i: int| 0 <= i < pats.len() && #[trigger] is_partial(pats[i], t, hold);
        encode_utf8_valid_utf8(patterns[i]);
        text::lemma_first_byte_leads(pats[i]);
        assert(t.subrange(hold, t.len() as int)[0] == t[hold]);
        assert(pats[i].subrange(0, t.len() - hold)[0] == pats[i][0]);
    }
    text::lemma_boundary_by_byte(t, hold);
}


/// The matches `m` moved `d` bytes further on.
pub open spec fn shift_matches(m: Seq<(int, int, int)>, d: int) -> Seq<(int, int, int)> {
    m.map_values(|x: (int, int, int)| (x.0 + d, x.1 + d, x.2))
}

/// Where each pattern occurs alike at two positions, the first pattern that
/// occurs there is the same.
proof fn lemma_first_pattern_agree(pats: Seq<Seq<u8>>, a: Seq<u8>, pa: int, b: Seq<u8>, pb: int, i: int)
    requires
        forall|j: int| 0 <= j < pats.len() ==> (occurs_at(a, #[trigger] pats[j], pa) <==> occurs_at(b, pats[j], pb)),
    ensures
        first_pattern_at(pats, a, pa, i) == first_pattern_at(pats, b, pb, i),
    decreases pats.len() - i,
{
    if 0 <= i < pats.len() {
        lemma_first_pattern_agree(pats, a, pa, b, pb, i + 1);
    }
}

/// The matches from `h + q` in `t` are those from `q` in the part of `t`
/// from `h` on, moved by `h`.
proof fn lemma_matches_suffix(pats: Seq<Seq<u8>>, t: Seq<u8>, h: int, q: int)
    requires
        0 <= h <= t.len(),
        0 <= q,
    ensures
        leftmost_first_matches(pats, t, h + q) == shift_matches(
            leftmost_first_matches(pats, t.subrange(h, t.len() as int), q),
            h,
        ),
    decreases t.len() - h - q + 1,
{
    let t2 = t.subrange(h, t.len() as int);
    if q > t2.len() {
        assert(shift_matches(Seq::<(int, int, int)>::empty(), h) =~= seq![]);
    } else {
        assert forall|j: int| 0 <= j < pats.len() implies (occurs_at(t, #[trigger] pats[j], h + q)
            <==> occurs_at(t2, pats[j], q)) by {
            if h + q + pats[j].len() <= t.len() {
                assert(t.subrange(h + q, h + q + pats[j].len()) =~= t2.subrange(q, q + pats[j].len()));
            }
        }
        lemma_first_pattern_agree(pats, t, h + q, t2, q, 0);
        lemma_first_pattern_at(pats, t2, q, 0);
        match first_pattern_at(pats, t2, q, 0) {
            Some(i) => {
                if pats[i].len() == 0 {
                    assert(shift_matches(Seq::<(int, int, int)>::empty(), h) =~= seq![]);
                } else {
                    lemma_matches_suffix(pats, t, h, q + pats[i].len());
                    assert(h + q + pats[i].len() == h + (q + pats[i].len()));
                    let rest = leftmost_first_matches(pats, t2, q + pats[i].len());
                    assert(shift_matches(seq![(q, q + pats[i].len(), i)] + rest, h) =~= seq![
                        (h + q, h + q + pats[i].len(), i),
                    ] + shift_matches(rest, h));
                }
            },
            None => {
                lemma_matches_suffix(pats, t, h, q + 1);
                assert(h + q + 1 == h + (q + 1));
            },
        }
    }
}

/// Where no pattern occurs from `a` up to `b`, searching from `a` finds what
/// searching from `b` finds.
proof fn lemma_matches_skip(pats: Seq<Seq<u8>>, x: Seq<u8>, a: int, b: int)
    requires
        0 <= a <= b <= x.len() + 1,
        forall|j: int, q: int|
            0 <= j < pats.len() && a <= q < b ==> !#[trigger] occurs_at(x, pats[j], q),
    ensures
        leftmost_first_matches(pats, x, a) == leftmost_first_matches(pats, x, b),
    decreases b - a,
{
    if a < b {
        lemma_first_pattern_none(pats, x, a, 0);
        lemma_matches_skip(pats, x, a + 1, b);
    }
}

/// The first match from `c` is at the first position where some pattern
/// occurs, of the first pattern that occurs there; the rest are the matches
/// from where it ends. Without a match no non-empty pattern occurs from `c` on.
proof fn lemma_matches_head(pats: Seq<Seq<u8>>, x: Seq<u8>, c: int)
    requires
        0 <= c,
        forall|j: int| 0 <= j < pats.len() ==> #[trigger] pats[j].len() > 0,
    ensures
        leftmost_first_matches(pats, x, c).len() > 0 ==> {
            let m = leftmost_first_matches(pats, x, c);
            &&& c <= m[0].0
            &&& first_pattern_at(pats, x, m[0].0, 0) == Some(m[0].2)
            &&& 0 <= m[0].2 < pats.len()
            &&& m[0].1 == m[0].0 + pats[m[0].2].len()
            &&& forall|j: int, q: int|
                0 <= j < pats.len() && c <= q < m[0].0 ==> !#[trigger] occurs_at(x, pats[j], q)
            &&& m.drop_first() == leftmost_first_matches(pats, x, m[0].1)
        },
        leftmost_first_matches(pats, x, c).len() == 0 ==> forall|j: int, q: int|
            0 <= j < pats.len() && c <= q ==> !#[trigger] occurs_at(x, pats[j], q),
    decreases x.len() + 1 - c,
{
    let m = leftmost_first_matches(pats, x, c);
    if c > x.len() {
        assert forall|j: int, q: int| 0 <= j < pats.len() && c <= q implies !#[trigger] occurs_at(x, pats[j], q) by {}
    } else {
        lemma_first_pattern_at(pats, x, c, 0);
        match first_pattern_at(pats, x, c, 0) {
            Some(i) => {
                let rest = leftmost_first_matches(pats, x, c + pats[i].len());
                assert(m == seq![(c, c + pats[i].len(), i)] + rest);
                assert(m.drop_first() =~= rest);
            },
            None => {
                lemma_matches_head(pats, x, c + 1);
                assert forall|j: int| 0 <= j < pats.len() implies !#[trigger] occurs_at(x, pats[j], c) by {
                    if occurs_at(x, pats[j], c) {
                        lemma_first_pattern_none_means(pats, x, c, 0, j);
                    }
                }
            },
        }
    }
}

/// Where no first pattern occurs from index `i` on, none of them occurs.
proof fn lemma_first_pattern_none_means(pats: Seq<Seq<u8>>, x: Seq<u8>, pos: int, i: int, j: int)
    requires
        0 <= i <= j < pats.len(),
        first_pattern_at(pats, x, pos, i) is None,
    ensures
        !occurs_at(x, pats[j], pos),
    decreases j - i,
{
    if i < j {
        lemma_first_pattern_none_means(pats, x, pos, i + 1, j);
    }
}

/// The matches after the first `k` are the matches from where the `k`-th ends.
proof fn lemma_matches_skip_k(pats: Seq<Seq<u8>>, x: Seq<u8>, k: int)
    requires
        forall|j: int| 0 <= j < pats.len() ==> #[trigger] pats[j].len() > 0,
        0 <= k <= leftmost_first_matches(pats, x, 0).len(),
    ensures
        leftmost_first_matches(pats, x, 0).skip(k) == leftmost_first_matches(
            pats,
            x,
            cursor_at(leftmost_first_matches(pats, x, 0), k),
        ),
    decreases k,
{
    let m = leftmost_first_matches(pats, x, 0);
    if k == 0 {
        assert(m.skip(0) =~= m);
    } else {
        lemma_matches_skip_k(pats, x, k - 1);
        let c = cursor_at(m, k - 1);
        lemma_matches_wf(pats, x, 0);
        if k - 1 > 0 {
            assert(occurs_at(x, pats[m[k - 2].2], m[k - 2].0));
        }
        let mc = leftmost_first_matches(pats, x, c);
        assert(mc[0] == m.skip(k - 1)[0]);
        lemma_matches_head(pats, x, c);
        assert(m.skip(k) =~= m.skip(k - 1).drop_first());
    }
}


/// A pattern that could be completed at `q` of a longer text could be
/// completed there in its start `t1`.
proof fn lemma_partial_prefix(pats: Seq<Seq<u8>>, t1: Seq<u8>, u: Seq<u8>, q: int)
    requires
        0 <= q < t1.len(),
        partial_at(pats, t1 + u, q),
    ensures
        partial_at(pats, t1, q),
{
    let t = t1 + u;
    let i = choose|i: int| 0 <= i < pats.len() && #[trigger] is_partial(pats[i], t, q);
    let p = pats[i];
    assert forall|x: int| 0 <= x < t1.len() - q implies t1.subrange(q, t1.len() as int)[x] == p.subrange(
        0,
        t1.len() - q,
    )[x] by {
        assert(t.subrange(q, t.len() as int)[x] == p.subrange(0, t.len() - q)[x]);
    }
    assert(t1.subrange(q, t1.len() as int) =~= p.subrange(0, t1.len() - q));
    assert(is_partial(pats[i], t1, q));
}

/// Where no pattern could be completed at `q` of `t1`, each pattern occurs
/// at `q` in `t1` exactly when it does in any longer text.
proof fn lemma_occurs_prefix(pats: Seq<Seq<u8>>, t1: Seq<u8>, u: Seq<u8>, q: int)
    requires
        0 <= q < t1.len(),
        !partial_at(pats, t1, q),
    ensures
        forall|j: int|
            0 <= j < pats.len() ==> (occurs_at(t1, #[trigger] pats[j], q) <==> occurs_at(t1 + u, pats[j], q)),
{
    let t = t1 + u;
    assert forall|j: int| 0 <= j < pats.len() implies (occurs_at(t1, #[trigger] pats[j], q) <==> occurs_at(
        t,
        pats[j],
        q,
    )) by {
        let p = pats[j];
        if q + p.len() <= t1.len() {
            assert(t1.subrange(q, q + p.len()) =~= t.subrange(q, q + p.len()));
        } else if occurs_at(t, p, q) {
            assert forall|x: int| 0 <= x < t1.len() - q implies t1.subrange(q, t1.len() as int)[x]
                == p.subrange(0, t1.len() - q)[x] by {
                assert(t.subrange(q, q + p.len())[x] == p[x]);
            }
            assert(t1.subrange(q, t1.len() as int) =~= p.subrange(0, t1.len() - q));
            assert(is_partial(pats[j], t1, q));
        }
    }
}

/// In a longer text the held-back part begins no earlier, and where it
/// begins in `t1` the longer text gives the same as from `c`.
proof fn lemma_hold_prefix(pats: Seq<Seq<u8>>, t1: Seq<u8>, u: Seq<u8>, c: int)
    requires
        0 <= c <= t1.len(),
    ensures
        hold_from(pats, t1 + u, c) >= hold_from(pats, t1, c),
        hold_from(pats, t1 + u, c) == hold_from(pats, t1 + u, hold_from(pats, t1, c)),
{
    let t = t1 + u;
    let h = hold_from(pats, t1, c);
    lemma_hold_from(pats, t1, c);
    lemma_hold_from(pats, t, c);
    let g = hold_from(pats, t, c);
    if g < h {
        lemma_partial_prefix(pats, t1, u, g);
    }
    lemma_hold_from_skip(pats, t, c, h);
}

/// From `h + q` in `t`, the held-back part begins `h` bytes after where it
/// does from `q` in the part of `t` from `h` on.
proof fn lemma_hold_suffix(pats: Seq<Seq<u8>>, t: Seq<u8>, h: int, q: int)
    requires
        0 <= h <= t.len(),
        0 <= q,
    ensures
        hold_from(pats, t, h + q) == h + hold_from(pats, t.subrange(h, t.len() as int), q),
    decreases t.len() - h - q,
{
    let t2 = t.subrange(h, t.len() as int);
    if q < t2.len() {
        assert forall|i: int| 0 <= i < pats.len() implies (#[trigger] is_partial(pats[i], t, h + q)
            <==> is_partial(pats[i], t2, q)) by {
            assert(t.subrange(h + q, t.len() as int) =~= t2.subrange(q, t2.len() as int));
        }
        if partial_at(pats, t, h + q) {
            let i = choose|i: int| 0 <= i < pats.len() && #[trigger] is_partial(pats[i], t, h + q);
            assert(is_partial(pats[i], t2, q));
        } else if partial_at(pats, t2, q) {
            let i = choose|i: int| 0 <= i < pats.len() && #[trigger] is_partial(pats[i], t2, q);
            assert(is_partial(pats[i], t, h + q));
        } else {
            lemma_hold_suffix(pats, t, h, q + 1);
            assert(h + q + 1 == h + (q + 1));
        }
    }
}

/// The settled count reaches `k` only through matches that were settled.
proof fn lemma_settled_count_prefix(pats: Seq<Seq<u8>>, x: Seq<u8>, m: Seq<(int, int, int)>, k: int)
    requires
        0 <= k <= settled_count(pats, x, m, 0),
    ensures
        settled_count(pats, x, m, 0) == settled_count(pats, x, m, k),
        k < settled_count(pats, x, m, 0) ==> k < m.len() && hold_from(pats, x, cursor_at(m, k)) > m[k].0,
    decreases k,
{
    if k > 0 {
        lemma_settled_count_prefix(pats, x, m, k - 1);
    }
    if k < settled_count(pats, x, m, 0) {
        if k >= m.len() || hold_from(pats, x, cursor_at(m, k)) <= m[k].0 {
            assert(settled_count(pats, x, m, k) == k);
        }
    }
}

/// Up to the `k`-th settled match of `t1`, the matches of `t1` followed by
/// more text are those of `t1`, and they are settled there too.
proof fn lemma_settled_prefix_agree(pats: Seq<Seq<u8>>, t1: Seq<u8>, u: Seq<u8>, k: int)
    requires
        forall|j: int| 0 <= j < pats.len() ==> #[trigger] pats[j].len() > 0,
        0 <= k <= settled_count(pats, t1, leftmost_first_matches(pats, t1, 0), 0),
    ensures
        leftmost_first_matches(pats, t1 + u, 0).len() >= k,
        leftmost_first_matches(pats, t1 + u, 0).take(k) == leftmost_first_matches(pats, t1, 0).take(k),
        settled_count(pats, t1 + u, leftmost_first_matches(pats, t1 + u, 0), 0) == settled_count(
            pats,
            t1 + u,
            leftmost_first_matches(pats, t1 + u, 0),
            k,
        ),
    decreases k,
{
    let t = t1 + u;
    let m1 = leftmost_first_matches(pats, t1, 0);
    let m = leftmost_first_matches(pats, t, 0);
    if k == 0 {
        assert(m.take(0) =~= m1.take(0));
    } else {
        let j = k - 1;
        lemma_settled_prefix_agree(pats, t1, u, j);
        lemma_settled_count_prefix(pats, t1, m1, k);
        lemma_settled_count_prefix(pats, t1, m1, j);
        let c = cursor_at(m1, j);
        assert(cursor_at(m, j) == c) by {
            if j > 0 {
                assert(m.take(j)[j - 1] == m1.take(j)[j - 1]);
            }
        }
        lemma_matches_wf(pats, t1, 0);
        lemma_matches_wf(pats, t, 0);
        if j > 0 {
            assert(occurs_at(t1, pats[m1[j - 1].2], m1[j - 1].0));
        }
        lemma_matches_skip_k(pats, t1, j);
        lemma_matches_skip_k(pats, t, j);
        lemma_matches_head(pats, t1, c);
        let mc1 = leftmost_first_matches(pats, t1, c);
        assert(mc1[0] == m1[j]);
        let s = m1[j].0;
        let i = m1[j].2;
        assert(occurs_at(t1, pats[i], s));
        lemma_hold_from(pats, t1, c);
        assert forall|jj: int, q: int|
            0 <= jj < pats.len() && c <= q < s implies !#[trigger] occurs_at(t, pats[jj], q) by {
            lemma_occurs_prefix(pats, t1, u, q);
        }
        lemma_matches_skip(pats, t, c, s);
        lemma_occurs_prefix(pats, t1, u, s);
        lemma_first_pattern_agree(pats, t1, s, t, s, 0);
        let mt = leftmost_first_matches(pats, t, s);
        assert(mt == seq![(s, s + pats[i].len(), i)] + leftmost_first_matches(pats, t, s + pats[i].len()));
        assert(m.skip(j)[0] == mt[0]);
        assert(m[j] == m1[j]);
        assert(m.take(k) =~= m1.take(k)) by {
            assert forall|x: int| 0 <= x < k implies m.take(k)[x] == m1.take(k)[x] by {
                if x < j {
                    assert(m.take(j)[x] == m1.take(j)[x]);
                }
            }
        }
        lemma_hold_prefix(pats, t1, u, c);
    }
}


/// After the first `n1` matches of `t`, which continue as the matches of
/// `t2` moved by `h1`, settling goes on as it does in `t2`.
proof fn lemma_settled_tail(
    pats: Seq<Seq<u8>>,
    t: Seq<u8>,
    m: Seq<(int, int, int)>,
    n1: int,
    h1: int,
    m2: Seq<(int, int, int)>,
    j: int,
)
    requires
        0 <= n1,
        0 <= h1 <= t.len(),
        m.len() == n1 + m2.len(),
        forall|x: int| 0 <= x < m2.len() ==> m[n1 + x] == (#[trigger] m2[x].0 + h1, m2[x].1 + h1, m2[x].2),
        forall|x: int| 0 <= x < m2.len() ==> 0 <= #[trigger] m2[x].1,
        hold_from(pats, t, cursor_at(m, n1)) == h1 + hold_from(pats, t.subrange(h1, t.len() as int), 0),
        0 <= j <= m2.len(),
    ensures
        settled_count(pats, t, m, n1 + j) == n1 + settled_count(
            pats,
            t.subrange(h1, t.len() as int),
            m2,
            j,
        ),
    decreases m2.len() - j,
{
    let t2 = t.subrange(h1, t.len() as int);
    if j < m2.len() {
        lemma_settled_tail(pats, t, m, n1, h1, m2, j + 1);
        assert(m[n1 + j] == (m2[j].0 + h1, m2[j].1 + h1, m2[j].2));
        if j > 0 {
            assert(m[n1 + j - 1] == (m2[j - 1].0 + h1, m2[j - 1].1 + h1, m2[j - 1].2));
            assert(cursor_at(m, n1 + j) == h1 + cursor_at(m2, j));
            lemma_hold_suffix(pats, t, h1, cursor_at(m2, j));
        }
        assert(n1 + j + 1 == n1 + (j + 1));
    }
}

/// After the settled matches of `t1`, no pattern occurs in `t1` followed by
/// more text before where `t1` holds text back.
proof fn lemma_quiet_before_hold(pats: Seq<Seq<u8>>, t1: Seq<u8>, u: Seq<u8>)
    requires
        forall|j: int| 0 <= j < pats.len() ==> #[trigger] pats[j].len() > 0,
    ensures
        ({
            let m1 = leftmost_first_matches(pats, t1, 0);
            let c = cursor_at(m1, settled_count(pats, t1, m1, 0));
            forall|jj: int, q: int|
                0 <= jj < pats.len() && c <= q < hold_from(pats, t1, c) ==> !#[trigger] occurs_at(
                    t1 + u,
                    pats[jj],
                    q,
                )
        }),
{
    let m1 = leftmost_first_matches(pats, t1, 0);
    lemma_settled_count(pats, t1, m1, 0);
    let n1 = settled_count(pats, t1, m1, 0);
    lemma_settled_count_prefix(pats, t1, m1, n1);
    lemma_matches_wf(pats, t1, 0);
    let c = cursor_at(m1, n1);
    if n1 > 0 {
        assert(occurs_at(t1, pats[m1[n1 - 1].2], m1[n1 - 1].0));
    }
    let h1 = hold_from(pats, t1, c);
    lemma_hold_from(pats, t1, c);
    lemma_matches_skip_k(pats, t1, n1);
    lemma_matches_head(pats, t1, c);
    if n1 < m1.len() {
        if h1 > m1[n1].0 {
            lemma_settled_count(pats, t1, m1, n1 + 1);
        }
        assert(leftmost_first_matches(pats, t1, c)[0] == m1[n1]);
    }
    assert forall|jj: int, q: int|
        0 <= jj < pats.len() && c <= q < h1 implies !#[trigger] occurs_at(t1 + u, pats[jj], q) by {
        lemma_occurs_prefix(pats, t1, u, q);
    }
}

/// Settling `t1` and then, with more text `u`, the part held back followed
/// by `u`, settles the same matches, in order, as settling `t1` and `u`
/// together, and holds back the same text.
#[verifier::rlimit(60)]
pub proof fn lemma_settled_split(pats: Seq<Seq<u8>>, t1: Seq<u8>, u: Seq<u8>)
    requires
        forall|j: int| 0 <= j < pats.len() ==> #[trigger] pats[j].len() > 0,
    ensures
        ({
            let t = t1 + u;
            let h1 = held_from(pats, t1);
            let t2 = t1.subrange(h1, t1.len() as int) + u;
            &&& 0 <= h1 <= t1.len()
            &&& t.subrange(h1, t.len() as int) == t2
            &&& settled_matches(pats, t) == settled_matches(pats, t1) + shift_matches(
                settled_matches(pats, t2),
                h1,
            )
            &&& held_from(pats, t) == h1 + held_from(pats, t2)
        }),
{
    let t = t1 + u;
    let m1 = leftmost_first_matches(pats, t1, 0);
    let m = leftmost_first_matches(pats, t, 0);
    lemma_settled_count(pats, t1, m1, 0);
    let n1 = settled_count(pats, t1, m1, 0);
    lemma_settled_prefix_agree(pats, t1, u, n1);
    lemma_settled_count_prefix(pats, t1, m1, n1);
    lemma_matches_wf(pats, t1, 0);
    lemma_matches_wf(pats, t, 0);
    let c = cursor_at(m1, n1);
    assert(cursor_at(m, n1) == c) by {
        if n1 > 0 {
            assert(m.take(n1)[n1 - 1] == m1.take(n1)[n1 - 1]);
        }
    }
    if n1 > 0 {
        assert(occurs_at(t1, pats[m1[n1 - 1].2], m1[n1 - 1].0));
    }
    assert(0 <= c <= t1.len());
    assert(matching_end_is_cursor(m1, n1)) by {
        if n1 > 0 {
            assert(m1.take(n1).last() == m1[n1 - 1]);
        }
    }
    let h1 = hold_from(pats, t1, c);
    assert(held_from(pats, t1) == h1);
    lemma_hold_from(pats, t1, c);
    let t2 = t.subrange(h1, t.len() as int);
    assert(t2 =~= t1.subrange(h1, t1.len() as int) + u);
    // No pattern occurs between the cursor and where text is held back.
    lemma_quiet_before_hold(pats, t1, u);
    lemma_matches_skip(pats, t, c, h1);
    lemma_matches_suffix(pats, t, h1, 0);
    lemma_matches_skip_k(pats, t, n1);
    let m2 = leftmost_first_matches(pats, t2, 0);
    assert(m.skip(n1) == shift_matches(m2, h1));
    assert(m.len() == n1 + m2.len()) by {
        assert(m.skip(n1).len() == m2.len());
    }
    assert forall|x: int| 0 <= x < m2.len() implies m[n1 + x] == (#[trigger] m2[x].0 + h1, m2[x].1 + h1, m2[x].2) by {
        assert(m.skip(n1)[x] == m[n1 + x]);
    }
    lemma_matches_wf(pats, t2, 0);
    assert forall|x: int| 0 <= x < m2.len() implies 0 <= #[trigger] m2[x].1 by {
        assert(occurs_at(t2, pats[m2[x].2], m2[x].0));
    }
    lemma_hold_prefix(pats, t1, u, c);
    lemma_hold_suffix(pats, t, h1, 0);
    lemma_settled_count(pats, t2, m2, 0);
    let n2 = settled_count(pats, t2, m2, 0);
    lemma_settled_tail(pats, t, m, n1, h1, m2, 0);
    let nt = settled_count(pats, t, m, 0);
    assert(nt == n1 + n2);
    let st = m.take(nt);
    let s1 = m1.take(n1);
    let s2 = m2.take(n2);
    assert(st =~= s1 + shift_matches(s2, h1)) by {
        assert forall|x: int| 0 <= x < nt implies st[x] == (s1 + shift_matches(s2, h1))[x] by {
            if x < n1 {
                assert(m.take(n1)[x] == m1.take(n1)[x]);
            } else {
                assert(m[n1 + (x - n1)] == (m2[x - n1].0 + h1, m2[x - n1].1 + h1, m2[x - n1].2));
            }
        }
    }
    // Where the held-back text begins.
    assert(matching_end_is_cursor(m2, n2)) by {
        if n2 > 0 {
            assert(m2.take(n2).last() == m2[n2 - 1]);
        }
    }
    assert(matching_end_is_cursor(m, nt)) by {
        if nt > 0 {
            assert(m.take(nt).last() == m[nt - 1]);
        }
    }
    if n2 > 0 {
        assert(m[n1 + (n2 - 1)] == (m2[n2 - 1].0 + h1, m2[n2 - 1].1 + h1, m2[n2 - 1].2));
        assert(cursor_at(m, nt) == h1 + cursor_at(m2, n2));
        lemma_hold_suffix(pats, t, h1, cursor_at(m2, n2));
    }
}

/// Where the first `k` matches end is where the search stands after them.
pub open spec fn matching_end_is_cursor(m: Seq<(int, int, int)>, k: int) -> bool {
    end_of_matches(m.take(k)) == cursor_at(m, k)
}

} // verus!
