//! Text as UTF-8 bytes: byte offsets, character boundaries, substring search.
//!
//! Offsets into a line are byte offsets, so the specifications in this crate
//! speak of a string through its UTF-8 encoding. This module holds the spec
//! functions and lemmas that connect a string's characters to its bytes, and
//! the verified byte-level operations built on them.
use vstd::prelude::*;
use vstd::string::*;
use vstd::utf8::*;

verus! {

/// `needle` stands in `hay` at byte offset `at`.
pub open spec fn occurs_at(hay: Seq<u8>, needle: Seq<u8>, at: int) -> bool {
    &&& 0 <= at
    &&& at + needle.len() <= hay.len()
    &&& hay.subrange(at, at + needle.len()) == needle
}

/// `needle` stands in `hay` at offset `at` and nowhere before it.
pub open spec fn is_first_occurrence(hay: Seq<u8>, needle: Seq<u8>, at: int) -> bool {
    &&& occurs_at(hay, needle, at)
    &&& forall|j: int| 0 <= j < at ==> !occurs_at(hay, needle, j)
}

/// The least offset at which `needle` stands in `hay`, if it occurs at all.
pub open spec fn first_occurrence(hay: Seq<u8>, needle: Seq<u8>) -> Option<int> {
    if exists|at: int| occurs_at(hay, needle, at) {
        Some(choose|at: int| is_first_occurrence(hay, needle, at))
    } else {
        None
    }
}

/// `needle` occurs somewhere in `hay`.
pub open spec fn occurs_in(hay: Seq<u8>, needle: Seq<u8>) -> bool {
    first_occurrence(hay, needle) is Some
}

/// `hay` begins with `prefix`.
pub open spec fn begins_with(hay: Seq<u8>, prefix: Seq<u8>) -> bool {
    occurs_at(hay, prefix, 0)
}

/// Where `needle` stands somewhere, it stands somewhere first.
proof fn lemma_some_occurrence_is_first(hay: Seq<u8>, needle: Seq<u8>, at: int)
    requires
        occurs_at(hay, needle, at),
    ensures
        exists|first: int| is_first_occurrence(hay, needle, first),
    decreases at,
{
    if exists|j: int| 0 <= j < at && occurs_at(hay, needle, j) {
        let j = choose|j: int| 0 <= j < at && occurs_at(hay, needle, j);
        lemma_some_occurrence_is_first(hay, needle, j);
    } else {
        assert(is_first_occurrence(hay, needle, at));
    }
}

/// What [`first_occurrence`] gives is an offset at which `needle` stands and
/// before which it stands nowhere; it gives none only where `needle` stands
/// nowhere.
pub proof fn lemma_first_occurrence(hay: Seq<u8>, needle: Seq<u8>)
    ensures
        match first_occurrence(hay, needle) {
            Some(at) => occurs_at(hay, needle, at) && forall|j: int|
                0 <= j < at ==> !occurs_at(hay, needle, j),
            None => forall|j: int| !occurs_at(hay, needle, j),
        },
{
    if exists|at: int| occurs_at(hay, needle, at) {
        let at = choose|at: int| occurs_at(hay, needle, at);
        lemma_some_occurrence_is_first(hay, needle, at);
    }
}

/// `at` is the first offset at which `needle` stands in `hay`.
pub proof fn lemma_is_first_occurrence(hay: Seq<u8>, needle: Seq<u8>, at: int)
    requires
        is_first_occurrence(hay, needle, at),
    ensures
        first_occurrence(hay, needle) == Some(at),
{
    lemma_first_occurrence(hay, needle);
}

/// Encoding distributes over concatenation.
pub proof fn lemma_encode_concat(a: Seq<char>, b: Seq<char>)
    ensures
        encode_utf8(a + b) == encode_utf8(a) + encode_utf8(b),
    decreases a.len(),
{
    if a.len() == 0 {
        assert(a + b =~= b);
        assert(encode_utf8(a) + encode_utf8(b) =~= encode_utf8(b));
    } else {
        lemma_encode_concat(a.drop_first(), b);
        assert((a + b).drop_first() =~= a.drop_first() + b);
        assert(encode_utf8(a + b) =~= encode_utf8(a) + encode_utf8(b));
    }
}

/// In valid UTF-8 an offset is a character boundary exactly when it is the
/// end of the text or the byte there is not a continuation byte.
pub proof fn lemma_char_boundary(bytes: Seq<u8>, at: int)
    requires
        valid_utf8(bytes),
    ensures
        is_char_boundary(bytes, at) <==> 0 <= at <= bytes.len() && (at == bytes.len()
            || !is_continuation_byte(bytes[at])),
{
    if 0 <= at < bytes.len() {
        is_char_boundary_iff_not_is_continuation_byte(bytes, at);
    } else if at == bytes.len() {
        is_char_boundary_start_end_of_seq(bytes);
    }
}

/// A boundary of a text is a boundary of each part of the text that reaches
/// from one boundary to another and holds it.
pub proof fn lemma_boundary_in_part(bytes: Seq<u8>, from: int, to: int, at: int)
    requires
        valid_utf8(bytes),
        is_char_boundary(bytes, from),
        is_char_boundary(bytes, to),
        from <= at <= to,
    ensures
        valid_utf8(bytes.subrange(from, to)),
        is_char_boundary(bytes, at) <==> is_char_boundary(bytes.subrange(from, to), at - from),
{
    lemma_char_boundary(bytes, from);
    lemma_char_boundary(bytes, to);
    lemma_char_boundary(bytes, at);
    valid_utf8_split(bytes, to);
    let head = bytes.subrange(0, to);
    lemma_char_boundary(head, from);
    valid_utf8_split(head, from);
    assert(head.subrange(from, head.len() as int) =~= bytes.subrange(from, to));
    lemma_char_boundary(bytes.subrange(from, to), at - from);
}

/// Where one valid text starts with another, the shorter one ends on a
/// character boundary of the longer.
pub proof fn lemma_valid_prefix_boundary(bytes: Seq<u8>, n: int)
    requires
        valid_utf8(bytes),
        0 <= n <= bytes.len(),
        valid_utf8(bytes.subrange(0, n)),
    ensures
        is_char_boundary(bytes, n),
    decreases n,
{
    if n > 0 {
        let head = bytes.subrange(0, n);
        let width = length_of_first_scalar(bytes);
        assert(head[0] == bytes[0]);
        assert(length_of_first_scalar(head) == width);
        assert(width <= n);
        let rest = pop_first_scalar(bytes);
        assert(pop_first_scalar(head) =~= rest.subrange(0, n - width));
        lemma_valid_prefix_boundary(rest, n - width);
    }
}

/// An occurrence of one text in another starts and ends on character
/// boundaries of the text it occurs in.
pub proof fn lemma_occurrence_on_boundaries(hay: Seq<u8>, needle: Seq<u8>, at: int)
    requires
        valid_utf8(hay),
        valid_utf8(needle),
        needle.len() > 0,
        occurs_at(hay, needle, at),
    ensures
        is_char_boundary(hay, at),
        is_char_boundary(hay, at + needle.len()),
{
    let n = needle.len() as int;
    lemma_char_boundary(needle, 0);
    is_char_boundary_start_end_of_seq(needle);
    assert(hay.subrange(at, at + n)[0] == hay[at]);
    lemma_char_boundary(hay, at);
    valid_utf8_split(hay, at);
    let tail = hay.subrange(at, hay.len() as int);
    assert(tail.subrange(0, n) =~= hay.subrange(at, at + n));
    lemma_valid_prefix_boundary(tail, n);
    lemma_char_boundary(tail, n);
    lemma_char_boundary(hay, at + n);
    if at + n < hay.len() {
        assert(tail[n] == hay[at + n]);
    }
}

/// The part of `s` between two of its character boundaries.
pub fn slice<'a>(s: &'a str, start: usize, end: usize) -> (part: &'a str)
    requires
        start <= end,
        is_char_boundary(s.spec_bytes(), start as int),
        is_char_boundary(s.spec_bytes(), end as int),
    ensures
        part.spec_bytes() == s.spec_bytes().subrange(start as int, end as int),
{
    proof {
        encode_utf8_valid_utf8(s@);
        lemma_boundary_in_part(s.spec_bytes(), 0, end as int, start as int);
        assert(s.spec_bytes().subrange(0, end as int).subrange(start as int, end as int)
            =~= s.spec_bytes().subrange(start as int, end as int));
    }
    let (head, _) = s.split_at(end);
    let (_, part) = head.split_at(start);
    part
}

/// Whether `needle` stands in `hay` at offset `at`.
pub fn matches_at(hay: &[u8], needle: &[u8], at: usize) -> (found: bool)
    requires
        at + needle@.len() <= hay@.len(),
    ensures
        found == occurs_at(hay@, needle@, at as int),
{
    let n = needle.len();
    let m = hay.len();
    let mut k: usize = 0;
    while k < n
        invariant
            n == needle@.len(),
            m == hay@.len(),
            at + n <= m,
            k <= n,
            forall|j: int| 0 <= j < k ==> hay@[at + j] == needle@[j],
        decreases n - k,
    {
        if hay[at + k] != needle[k] {
            proof {
                assert(hay@.subrange(at as int, at + n)[k as int] == hay@[at + k]);
            }
            return false;
        }
        k += 1;
    }
    proof {
        assert(hay@.subrange(at as int, at + n) =~= needle@);
    }
    true
}

/// The byte offset of the first occurrence of `needle` in `hay`.
pub fn find(hay: &str, needle: &str) -> (found: Option<usize>)
    ensures
        match found {
            Some(at) => first_occurrence(hay.spec_bytes(), needle.spec_bytes()) == Some(at as int),
            None => first_occurrence(hay.spec_bytes(), needle.spec_bytes()) is None,
        },
{
    let h = hay.as_bytes();
    let n = needle.as_bytes();
    let mut at: usize = 0;
    while n.len() <= h.len() - at
        invariant
            h@ == hay.spec_bytes(),
            n@ == needle.spec_bytes(),
            at <= h@.len(),
            forall|j: int| 0 <= j < at ==> !occurs_at(h@, n@, j),
        decreases h@.len() - at,
    {
        if matches_at(h, n, at) {
            proof {
                lemma_is_first_occurrence(h@, n@, at as int);
            }
            return Some(at);
        }
        proof {
            assert(h@.subrange(at as int, at as int) =~= Seq::<u8>::empty());
        }
        at += 1;
    }
    None
}

/// Whether `hay` begins with `prefix`.
pub fn starts_with(hay: &str, prefix: &str) -> (found: bool)
    ensures
        found == begins_with(hay.spec_bytes(), prefix.spec_bytes()),
{
    let h = hay.as_bytes();
    let p = prefix.as_bytes();
    if p.len() > h.len() {
        return false;
    }
    matches_at(h, p, 0)
}

/// Whether `needle` occurs in `hay`.
pub fn contains(hay: &str, needle: &str) -> (found: bool)
    ensures
        found == occurs_in(hay.spec_bytes(), needle.spec_bytes()),
{
    find(hay, needle).is_some()
}

/// Whether two texts are the same.
pub fn same_text(a: &str, b: &str) -> (same: bool)
    ensures
        same == (a@ == b@),
        same == (a.spec_bytes() == b.spec_bytes()),
{
    let x = a.as_bytes();
    let y = b.as_bytes();
    if x.len() != y.len() {
        return false;
    }
    let same = matches_at(x, y, 0);
    proof {
        assert(x@.subrange(0, x@.len() as int) =~= x@);
        encode_utf8_decode_utf8(a@);
        encode_utf8_decode_utf8(b@);
    }
    same
}

/// Appends `piece` to `text`.
pub fn push_text(text: &mut String, piece: &str)
    ensures
        final(text)@ == old(text)@ + piece@,
        encode_utf8(final(text)@) == encode_utf8(old(text)@) + piece.spec_bytes(),
{
    proof {
        lemma_encode_concat(text@, piece@);
    }
    text.append(piece);
}

/// The length of `text` in bytes.
pub fn byte_len(text: &str) -> (len: usize)
    ensures
        len == text.spec_bytes().len(),
{
    text.as_bytes().len()
}

/// The bytes as text, where they are UTF-8. This is `std::str::from_utf8`,
/// which checks the bytes and hands the same bytes back as a string slice,
/// or fails where they are not UTF-8.
#[verifier::external_body]
pub(crate) fn text_of(bytes: &[u8]) -> (text: Option<&str>)
    ensures
        text is Some <==> valid_utf8(bytes@),
        text matches Some(text) ==> text.spec_bytes() == bytes@,
{
    std::str::from_utf8(bytes).ok()
}

} // verus!
