//! Character-level helpers on string slices, and the UTF-8 facts that
//! byte offsets into a string rely on.
use vstd::prelude::*;
use vstd::string::StringSliceAdditionalSpecFns;
use vstd::utf8::*;

verus! {

/// `s` with every leading `c` removed.
pub open spec fn trim_start_char(s: Seq<char>, c: char) -> Seq<char>
    decreases s.len(),
{
    if s.len() > 0 && s[0] == c {
        trim_start_char(s.drop_first(), c)
    } else {
        s
    }
}

/// `s` with every trailing `c` removed.
pub open spec fn trim_end_char(s: Seq<char>, c: char) -> Seq<char>
    decreases s.len(),
{
    if s.len() > 0 && s.last() == c {
        trim_end_char(s.drop_last(), c)
    } else {
        s
    }
}

/// Trimming `c` from the start keeps a suffix of `s`, drops only `c`s, and
/// leaves no `c` at the start.
pub proof fn lemma_trim_start_char(s: Seq<char>, c: char)
    ensures
        trim_start_char(s, c).len() <= s.len(),
        trim_start_char(s, c) == s.skip(s.len() - trim_start_char(s, c).len()),
        forall|i: int| 0 <= i < s.len() - trim_start_char(s, c).len() ==> s[i] == c,
        trim_start_char(s, c).len() > 0 ==> trim_start_char(s, c)[0] != c,
    decreases s.len(),
{
    if s.len() > 0 && s[0] == c {
        let t = s.drop_first();
        lemma_trim_start_char(t, c);
        let r = trim_start_char(t, c);
        assert(t.skip(t.len() - r.len()) =~= s.skip(s.len() - r.len()));
        assert forall|i: int| 0 <= i < s.len() - r.len() implies s[i] == c by {
            if i > 0 {
                assert(s[i] == t[i - 1]);
            }
        }
    } else {
        assert(s.skip(0) =~= s);
    }
}

/// Trimming `c` from the end keeps a prefix of `s`, drops only `c`s, and
/// leaves no `c` at the end.
pub proof fn lemma_trim_end_char(s: Seq<char>, c: char)
    ensures
        trim_end_char(s, c).len() <= s.len(),
        trim_end_char(s, c) == s.take(trim_end_char(s, c).len() as int),
        forall|i: int| trim_end_char(s, c).len() <= i < s.len() ==> s[i] == c,
        trim_end_char(s, c).len() > 0 ==> trim_end_char(s, c).last() != c,
    decreases s.len(),
{
    if s.len() > 0 && s.last() == c {
        let t = s.drop_last();
        lemma_trim_end_char(t, c);
        let r = trim_end_char(t, c);
        assert(t.take(r.len() as int) =~= s.take(r.len() as int));
        assert forall|i: int| r.len() <= i < s.len() implies s[i] == c by {
            if i < s.len() - 1 {
                assert(s[i] == t[i]);
            }
        }
    } else {
        assert(s.take(s.len() as int) =~= s);
    }
}

/// `str::trim_start_matches` with a `char` pattern: the documentation says the
/// result is the slice with all prefixes that match the pattern repeatedly removed.
#[verifier::external_body]
pub(crate) fn trim_start_matches_char<'a>(s: &'a str, c: char) -> (res: &'a str)
    ensures
        res@ == trim_start_char(s@, c),
{
    s.trim_start_matches(c)
}

/// `str::trim_end_matches` with a `char` pattern: the documentation says the
/// result is the slice with all suffixes that match the pattern repeatedly removed.
#[verifier::external_body]
pub(crate) fn trim_end_matches_char<'a>(s: &'a str, c: char) -> (res: &'a str)
    ensures
        res@ == trim_end_char(s@, c),
{
    s.trim_end_matches(c)
}

/// `str::starts_with` with a string pattern.
#[verifier::external_body]
pub(crate) fn starts_with_str(s: &str, prefix: &str) -> (res: bool)
    ensures
        res == (prefix@.len() <= s@.len() && s@.subrange(0, prefix@.len() as int) == prefix@),
{
    s.starts_with(prefix)
}

/// Whether `s` holds a `<`, found as its byte among the bytes of `s`.
pub(crate) fn contains_open_angle(s: &str) -> (res: bool)
    ensures
        res == s@.contains('<'),
{
    let b = s.as_bytes();
    let ghost h = b@;
    let mut i: usize = 0;
    while i < b.len()
        invariant
            i <= h.len(),
            h == b@,
            h == encode_utf8(s@),
            forall|j: int| 0 <= j < i ==> h[j] != 60u8,
        decreases h.len() - i,
    {
        if b[i] == 60u8 {
            proof {
                lemma_open_angle_byte(s@, i as int);
            }
            return true;
        }
        i = i + 1;
    }
    proof {
        if s@.contains('<') {
            let j = choose|j: int| 0 <= j < s@.len() && s@[j] == '<';
            lemma_char_range_bytes(s@, j, j + 1);
            lemma_ascii_char_bytes('<');
            assert(s@.subrange(j, j + 1) =~= seq!['<']);
            let a = encode_utf8(s@.take(j)).len() as int;
            let e = encode_utf8(s@.take(j + 1)).len() as int;
            let sub = h.subrange(a, e);
            assert(sub == seq!['<' as u8]);
            assert(('<' as u8) == 60u8);
            assert(sub.len() == 1);
            assert(sub[0] == h[a]);
            assert(h[a] == 60u8);
        }
    }
    false
}

/// The UTF-8 encoding of a concatenation is the concatenation of the encodings.
pub proof fn lemma_encode_utf8_concat(a: Seq<char>, b: Seq<char>)
    ensures
        encode_utf8(a + b) == encode_utf8(a) + encode_utf8(b),
    decreases a.len(),
{
    if a.len() == 0 {
        assert(a + b =~= b);
        assert(encode_utf8(a) + encode_utf8(b) =~= encode_utf8(b));
    } else {
        lemma_encode_utf8_concat(a.drop_first(), b);
        assert((a + b).drop_first() =~= a.drop_first() + b);
        assert(encode_utf8(a + b) =~= encode_utf8(a) + encode_utf8(b));
    }
}

/// The bytes of `t` agree with `p` up to `p.len()`.
pub open spec fn has_prefix(t: Seq<u8>, p: Seq<u8>) -> bool {
    p.len() <= t.len() && t.subrange(0, p.len() as int) == p
}

/// The characters `s[i..j]` sit between two character boundaries of the
/// encoding of `s`: the byte lengths of the encodings of `s[..i]` and `s[..j]`.
pub proof fn lemma_char_range_bytes(s: Seq<char>, i: int, j: int)
    requires
        0 <= i <= j <= s.len(),
    ensures
        encode_utf8(s.take(i)).len() <= encode_utf8(s.take(j)).len() <= encode_utf8(s).len(),
        is_char_boundary(encode_utf8(s), encode_utf8(s.take(i)).len() as int),
        is_char_boundary(encode_utf8(s), encode_utf8(s.take(j)).len() as int),
        encode_utf8(s).subrange(
            encode_utf8(s.take(i)).len() as int,
            encode_utf8(s.take(j)).len() as int,
        ) == encode_utf8(s.subrange(i, j)),
{
    let a = s.take(i);
    let mid = s.subrange(i, j);
    let rest = s.skip(j);
    assert(s =~= (a + mid) + rest);
    assert(s.take(j) =~= a + mid);
    lemma_encode_utf8_concat(a, mid);
    lemma_encode_utf8_concat(a + mid, rest);
    let b = encode_utf8(s);
    encode_utf8_valid_utf8(s);
    encode_utf8_valid_utf8(a);
    encode_utf8_valid_utf8(a + mid);
    assert(b.subrange(0, encode_utf8(a).len() as int) =~= encode_utf8(a));
    lemma_prefix_boundary(b, encode_utf8(a));
    assert(b.subrange(0, encode_utf8(a + mid).len() as int) =~= encode_utf8(a + mid));
    lemma_prefix_boundary(b, encode_utf8(a + mid));
    assert(b.subrange(encode_utf8(a).len() as int, encode_utf8(a + mid).len() as int)
        =~= encode_utf8(mid));
}

/// A `<` byte in the encoding of `b` is the encoding of a `<` of `b`.
pub proof fn lemma_open_angle_byte(b: Seq<char>, i: int)
    requires
        0 <= i < encode_utf8(b).len(),
        encode_utf8(b)[i] == 60u8,
    ensures
        b.contains('<'),
{
    let h = encode_utf8(b);
    encode_utf8_valid_utf8(b);
    is_char_boundary_iff_not_is_continuation_byte(h, i);
    decode_utf8_split(h, i);
    valid_utf8_split(h, i);
    let tail = h.subrange(i, h.len() as int);
    assert(tail[0] == 60u8);
    assert(valid_first_scalar(tail));
    assert((60u8 & 0x7Fu8) == 60u8) by (bit_vector);
    assert(decode_first_scalar(tail) == 60u32);
    char_u32_cast('<', 60u32);
    let front = decode_utf8(h.subrange(0, i));
    assert(decode_utf8(tail)[0] == '<');
    encode_utf8_decode_utf8(b);
    assert(b[front.len() as int] == '<');
}

/// An ASCII character is encoded as one byte, its code.
pub proof fn lemma_ascii_char_bytes(c: char)
    requires
        c as u32 <= 0x7f,
    ensures
        encode_utf8(seq![c]) == seq![c as u8],
{
    is_ascii_chars_encode_utf8(seq![c]);
    assert(encode_utf8(seq![c]) =~= seq![c as u8]);
}

/// If a valid UTF-8 sequence starts with another valid UTF-8 sequence, the
/// end of that prefix is a character boundary.
pub proof fn lemma_prefix_boundary(t: Seq<u8>, p: Seq<u8>)
    requires
        valid_utf8(t),
        valid_utf8(p),
        has_prefix(t, p),
    ensures
        is_char_boundary(t, p.len() as int),
    decreases p.len(),
{
    if p.len() == 0 {
    } else {
        assert(forall|i: int| 0 <= i < p.len() ==> t[i] == #[trigger] p[i]) by {
            assert forall|i: int| 0 <= i < p.len() implies t[i] == #[trigger] p[i] by {
                assert(t.subrange(0, p.len() as int)[i] == t[i]);
            }
        }
        assert(valid_first_scalar(p));
        let k = length_of_first_scalar(p);
        assert(t[0] == p[0]);
        if k >= 2 {
            assert(t[1] == p[1]);
        }
        if k >= 3 {
            assert(t[2] == p[2]);
        }
        if k >= 4 {
            assert(t[3] == p[3]);
        }
        assert(valid_first_scalar(t));
        assert(length_of_first_scalar(t) == k);
        let pt = pop_first_scalar(t);
        let pp = pop_first_scalar(p);
        assert(valid_utf8(pt));
        assert(valid_utf8(pp));
        assert(pt.subrange(0, pp.len() as int) =~= pp);
        lemma_prefix_boundary(pt, pp);
    }
}

/// Index 0 of a non-empty valid UTF-8 sequence is not a continuation byte.
pub proof fn lemma_first_byte_leads(p: Seq<u8>)
    requires
        valid_utf8(p),
        p.len() > 0,
    ensures
        !is_continuation_byte(p[0]),
{
    is_char_boundary_start_end_of_seq(p);
    is_char_boundary_iff_not_is_continuation_byte(p, 0);
}

/// Where a valid UTF-8 sequence has a byte at `i` that is not a continuation
/// byte, or `i` is its end, `i` is a character boundary.
pub proof fn lemma_boundary_by_byte(h: Seq<u8>, i: int)
    requires
        valid_utf8(h),
        0 <= i <= h.len(),
        i < h.len() ==> !is_continuation_byte(h[i]),
    ensures
        is_char_boundary(h, i),
{
    if i == h.len() {
        is_char_boundary_start_end_of_seq(h);
    } else {
        is_char_boundary_iff_not_is_continuation_byte(h, i);
    }
}

/// A character boundary is not the index of a continuation byte.
pub proof fn lemma_boundary_byte(h: Seq<u8>, i: int)
    requires
        valid_utf8(h),
        0 <= i < h.len(),
        is_char_boundary(h, i),
    ensures
        !is_continuation_byte(h[i]),
{
    is_char_boundary_iff_not_is_continuation_byte(h, i);
}

/// Where the non-empty valid UTF-8 sequence `p` occurs in `h` at `s`, both
/// ends of the occurrence are character boundaries of `h`.
pub proof fn lemma_occurrence_boundaries(h: Seq<u8>, p: Seq<u8>, s: int)
    requires
        valid_utf8(h),
        valid_utf8(p),
        p.len() > 0,
        0 <= s,
        s + p.len() <= h.len(),
        h.subrange(s, s + p.len()) == p,
    ensures
        is_char_boundary(h, s),
        is_char_boundary(h, s + p.len()),
{
    lemma_first_byte_leads(p);
    assert(h.subrange(s, s + p.len())[0] == h[s]);
    lemma_boundary_by_byte(h, s);
    valid_utf8_split(h, s);
    let t = h.subrange(s, h.len() as int);
    assert(t.subrange(0, p.len() as int) =~= p);
    lemma_prefix_boundary(t, p);
    let e = s + p.len();
    if e < h.len() {
        lemma_boundary_byte(t, p.len() as int);
        assert(t[p.len() as int] == h[e]);
    }
    lemma_boundary_by_byte(h, e);
}

/// A boundary `b` of `h` at or after the boundary `a` is a boundary of the
/// suffix of `h` that starts at `a`.
pub proof fn lemma_boundary_in_suffix(h: Seq<u8>, a: int, b: int)
    requires
        valid_utf8(h),
        0 <= a <= b <= h.len(),
        is_char_boundary(h, a),
        is_char_boundary(h, b),
    ensures
        valid_utf8(h.subrange(a, h.len() as int)),
        is_char_boundary(h.subrange(a, h.len() as int), b - a),
{
    valid_utf8_split(h, a);
    let t = h.subrange(a, h.len() as int);
    if b < h.len() {
        lemma_boundary_byte(h, b);
        assert(t[b - a] == h[b]);
    }
    lemma_boundary_by_byte(t, b - a);
}

/// Decoding the bytes between three character boundaries `a <= b <= c`
/// gives the decoding up to `b` followed by the decoding from `b`.
pub proof fn lemma_decode_split3(h: Seq<u8>, a: int, b: int, c: int)
    requires
        valid_utf8(h),
        0 <= a <= b <= c <= h.len(),
        is_char_boundary(h, a),
        is_char_boundary(h, b),
        is_char_boundary(h, c),
    ensures
        valid_utf8(h.subrange(a, c)),
        decode_utf8(h.subrange(a, c)) == decode_utf8(h.subrange(a, b)) + decode_utf8(
            h.subrange(b, c),
        ),
{
    lemma_boundary_in_suffix(h, a, b);
    lemma_boundary_in_suffix(h, a, c);
    let t = h.subrange(a, h.len() as int);
    valid_utf8_split(t, c - a);
    let u = t.subrange(0, c - a);
    assert(u =~= h.subrange(a, c));
    if b < c {
        lemma_boundary_byte(t, b - a);
        assert(u[b - a] == t[b - a]);
    }
    lemma_boundary_by_byte(u, b - a);
    decode_utf8_split(u, b - a);
    assert(u.subrange(0, b - a) =~= h.subrange(a, b));
    assert(u.subrange(b - a, u.len() as int) =~= h.subrange(b, c));
}

/// The part of `s` between the byte offsets `a` and `b`, both of which lie
/// on character boundaries.
pub(crate) fn byte_range<'a>(s: &'a str, a: usize, b: usize) -> (res: &'a str)
    requires
        a <= b <= s.spec_bytes().len(),
        is_char_boundary(s.spec_bytes(), a as int),
        is_char_boundary(s.spec_bytes(), b as int),
    ensures
        res.spec_bytes() == s.spec_bytes().subrange(a as int, b as int),
        res@ == decode_utf8(s.spec_bytes().subrange(a as int, b as int)),
{
    let ghost h = s.spec_bytes();
    proof {
        encode_utf8_valid_utf8(s@);
        lemma_boundary_in_suffix(h, a as int, b as int);
    }
    let (_, rest) = s.split_at(a);
    assert(rest.spec_bytes() =~= h.subrange(a as int, h.len() as int));
    let (mid, _) = rest.split_at(b - a);
    assert(mid.spec_bytes() =~= h.subrange(a as int, b as int));
    proof {
        encode_utf8_decode_utf8(mid@);
    }
    mid
}

} // verus!
