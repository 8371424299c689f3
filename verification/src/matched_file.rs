//! Matched lines and files.
//!
//! A [`Line`] is a line of text together with the byte ranges of it that a
//! search matched. The ranges are kept non-empty, in ascending order, apart
//! from one another, inside the text and on character boundaries; everything
//! here is stated over the UTF-8 bytes of the text and those ranges.
use crate::text::{
    byte_len, lemma_boundary_in_part, lemma_char_boundary, lemma_valid_prefix_boundary,
    push_text, slice,
};
use std::ops::Range;
use vstd::prelude::*;
use vstd::string::*;
use vstd::utf8::*;

verus! {

/// The byte ranges of a list of submatches, as pairs of start and end.
pub open spec fn ranges(submatches: Seq<Range<usize>>) -> Seq<(int, int)> {
    Seq::new(submatches.len(), |i: int| (submatches[i].start as int, submatches[i].end as int))
}

/// The UTF-8 bytes of each of a list of texts.
pub open spec fn texts_bytes(texts: Seq<String>) -> Seq<Seq<u8>> {
    Seq::new(texts.len(), |i: int| encode_utf8(texts[i]@))
}

/// What the submatches of one line must satisfy: each is a non-empty range
/// inside the text that starts and ends on a character boundary, and each
/// ends before or where those after it begin.
pub open spec fn ranges_valid(bytes: Seq<u8>, ranges: Seq<(int, int)>) -> bool {
    &&& forall|i: int|
        0 <= i < ranges.len() ==> 0 <= (#[trigger] ranges[i]).0 < ranges[i].1 <= bytes.len()
    &&& forall|i: int|
        0 <= i < ranges.len() ==> is_char_boundary(bytes, (#[trigger] ranges[i]).0)
            && is_char_boundary(bytes, ranges[i].1)
    &&& forall|i: int, j: int|
        0 <= i < j < ranges.len() ==> (#[trigger] ranges[i]).1 <= (#[trigger] ranges[j]).0
}

/// The spans of `bytes` from offset `pos` on: the text between and around
/// the ranges as unmatched spans, the ranges as matched ones, in order.
/// No span is made for an empty stretch between two ranges.
pub open spec fn spans_from(bytes: Seq<u8>, ranges: Seq<(int, int)>, pos: int) -> Seq<
    (bool, Seq<u8>),
>
    decreases ranges.len(),
{
    if ranges.len() == 0 {
        if pos >= bytes.len() {
            seq![]
        } else {
            seq![(false, bytes.subrange(pos, bytes.len() as int))]
        }
    } else {
        let matched = seq![(true, bytes.subrange(ranges[0].0, ranges[0].1))] + spans_from(
            bytes,
            ranges.drop_first(),
            ranges[0].1,
        );
        if pos < ranges[0].0 {
            seq![(false, bytes.subrange(pos, ranges[0].0))] + matched
        } else {
            matched
        }
    }
}

/// The texts of a list of spans, joined.
pub open spec fn spans_text(spans: Seq<(bool, Seq<u8>)>) -> Seq<u8>
    decreases spans.len(),
{
    if spans.len() == 0 {
        seq![]
    } else {
        spans[0].1 + spans_text(spans.drop_first())
    }
}

/// The spans that a walk has handed out, by their bytes.
pub open spec fn parts_bytes(parts: Seq<(bool, &str)>) -> Seq<(bool, Seq<u8>)> {
    Seq::new(parts.len(), |i: int| (parts[i].0, parts[i].1.spec_bytes()))
}

/// The text from offset `pos` on in which the `i`-th range has given way to
/// `with[i]`, and the text between and around the ranges is as it was.
pub open spec fn replaced_bytes(
    bytes: Seq<u8>,
    ranges: Seq<(int, int)>,
    with: Seq<Seq<u8>>,
    pos: int,
) -> Seq<u8>
    decreases ranges.len(),
{
    if ranges.len() == 0 {
        bytes.subrange(pos, bytes.len() as int)
    } else {
        bytes.subrange(pos, ranges[0].0) + with[0] + replaced_bytes(
            bytes,
            ranges.drop_first(),
            with.drop_first(),
            ranges[0].1,
        )
    }
}

/// Where the replacements stand in the text that [`replaced_bytes`] gives,
/// when offset `pos` of the old text has come to stand at offset `out` of the
/// new one. An empty replacement leaves no range.
pub open spec fn replaced_ranges(
    ranges: Seq<(int, int)>,
    with: Seq<Seq<u8>>,
    pos: int,
    out: int,
) -> Seq<(int, int)>
    decreases ranges.len(),
{
    if ranges.len() == 0 {
        seq![]
    } else {
        let start = out + (ranges[0].0 - pos);
        let end = start + with[0].len();
        let rest = replaced_ranges(ranges.drop_first(), with.drop_first(), ranges[0].1, end);
        if with[0].len() == 0 {
            rest
        } else {
            seq![(start, end)] + rest
        }
    }
}

/// The ranges moved to the parts of them that `to` names: `to[i]` is a range
/// inside the `i`-th range, counted from where that range starts. A range
/// whose part is empty is left out.
pub open spec fn adjusted_ranges(ranges: Seq<(int, int)>, to: Seq<(int, int)>) -> Seq<(int, int)>
    decreases ranges.len(),
{
    if ranges.len() == 0 {
        seq![]
    } else {
        let rest = adjusted_ranges(ranges.drop_first(), to.drop_first());
        if to[0].0 < to[0].1 {
            seq![(ranges[0].0 + to[0].0, ranges[0].0 + to[0].1)] + rest
        } else {
            rest
        }
    }
}

/// `to` names a part of the text `matched`: it is empty, or a range inside
/// `matched` between two of its character boundaries.
pub open spec fn narrows(matched: Seq<u8>, to: (int, int)) -> bool {
    to.0 < to.1 ==> 0 <= to.0 && to.1 <= matched.len() && is_char_boundary(matched, to.0)
        && is_char_boundary(matched, to.1)
}

/// `replacer`, called on the text `matched`, may return `replacement`.
pub open spec fn replacer_gives<R: Fn(&str) -> String>(
    replacer: R,
    matched: Seq<u8>,
    replacement: Seq<u8>,
) -> bool {
    exists|text: &str, out: String|
        text.spec_bytes() == matched && #[trigger] replacer.ensures((text,), out) && encode_utf8(
            out@,
        ) == replacement
}

/// `adjuster`, called on the text `matched`, may return the range `to`.
pub open spec fn adjuster_gives<A: Fn(&str) -> Range<usize>>(
    adjuster: A,
    matched: Seq<u8>,
    to: (int, int),
) -> bool {
    exists|text: &str, out: Range<usize>|
        text.spec_bytes() == matched && #[trigger] adjuster.ensures((text,), out) && to == (
            out.start as int,
            out.end as int,
        )
}

/// `new` is `old` with its submatches replaced by the texts `with`.
pub open spec fn replaced_with(old: LineView, with: Seq<Seq<u8>>, new: LineView) -> bool {
    &&& new.num == old.num
    &&& new.bytes() == replaced_bytes(old.bytes(), old.submatches, with, 0)
    &&& new.submatches == replaced_ranges(old.submatches, with, 0, 0)
}

/// `new` is `old` with each submatch replaced by a text that `replacer` may
/// return for it.
pub open spec fn replaced_by<R: Fn(&str) -> String>(replacer: R, old: LineView, new: LineView) -> bool {
    exists|with: Seq<Seq<u8>>|
        {
            &&& with.len() == old.submatches.len()
            &&& forall|i: int|
                0 <= i < with.len() ==> replacer_gives(replacer, old.matched(i), #[trigger] with[i])
            &&& replaced_with(old, with, new)
        }
}

/// `replacer` may be called on the text of every submatch of `line`.
pub open spec fn replacer_takes<R: Fn(&str) -> String>(replacer: R, line: LineView) -> bool {
    forall|text: &str| line.has_match(text.spec_bytes()) ==> #[trigger] replacer.requires((text,))
}

/// What a line stands for: its number, its text and the byte ranges of its
/// submatches.
pub struct LineView {
    pub num: usize,
    pub text: Seq<char>,
    pub submatches: Seq<(int, int)>,
}

impl LineView {
    /// The UTF-8 bytes of the text, which the submatches index.
    pub open spec fn bytes(self) -> Seq<u8> {
        encode_utf8(self.text)
    }

    /// The submatches satisfy [`ranges_valid`] for the text.
    pub open spec fn wf(self) -> bool {
        ranges_valid(self.bytes(), self.submatches)
    }

    /// The line as alternating unmatched and matched spans.
    pub open spec fn spans(self) -> Seq<(bool, Seq<u8>)> {
        spans_from(self.bytes(), self.submatches, 0)
    }

    /// The bytes of the `i`-th submatch.
    pub open spec fn matched(self, i: int) -> Seq<u8> {
        self.bytes().subrange(self.submatches[i].0, self.submatches[i].1)
    }

    /// `text` is the text of one of the submatches.
    pub open spec fn has_match(self, text: Seq<u8>) -> bool {
        exists|i: int| 0 <= i < self.submatches.len() && #[trigger] self.matched(i) == text
    }
}

/// One line of a matched file: a context line when it has no submatch, a
/// match line when it has one or more.
#[derive(Debug, PartialEq, Eq)]
pub struct Line {
    num: usize,
    value: String,
    submatches: Vec<Range<usize>>,
}

impl View for Line {
    type V = LineView;

    closed spec fn view(&self) -> LineView {
        LineView { num: self.num, text: self.value@, submatches: ranges(self.submatches@) }
    }
}

impl Clone for Line {
    fn clone(&self) -> (copy: Line)
        ensures
            copy@ == self@,
    {
        let mut submatches: Vec<Range<usize>> = Vec::new();
        let mut i: usize = 0;
        while i < self.submatches.len()
            invariant
                i <= self.submatches.len(),
                submatches.len() == i,
                forall|k: int| 0 <= k < i ==> submatches[k] == self.submatches[k],
            decreases self.submatches.len() - i,
        {
            submatches.push(self.submatches[i].start..self.submatches[i].end);
            i += 1;
        }
        proof {
            assert(ranges(submatches@) =~= ranges(self.submatches@));
        }
        Line { num: self.num, value: self.value.clone(), submatches }
    }
}

impl Line {
    /// The line's submatches are valid for its text.
    pub open spec fn wf(&self) -> bool {
        self@.wf()
    }

    /// Whether `submatches` are valid submatches of the text `value`.
    pub fn check_invariants(value: &str, submatches: &Vec<Range<usize>>) -> (ok: bool)
        ensures
            ok == ranges_valid(value.spec_bytes(), ranges(submatches@)),
    {
        let len = value.as_bytes().len();
        let ghost bytes = value.spec_bytes();
        let ghost rs = ranges(submatches@);
        let mut i: usize = 0;
        while i < submatches.len()
            invariant
                i <= submatches.len(),
                len == bytes.len(),
                bytes == value.spec_bytes(),
                rs == ranges(submatches@),
                ranges_valid(bytes, rs.take(i as int)),
            decreases submatches.len() - i,
        {
            let start = submatches[i].start;
            let end = submatches[i].end;
            let fits = start < end && end <= len && value.is_char_boundary(start)
                && value.is_char_boundary(end);
            let apart = i == 0 || submatches[i - 1].end <= start;
            if !fits || !apart {
                proof {
                    assert(rs[i as int] == (start as int, end as int));
                    if fits {
                        assert(rs[i - 1].1 > rs[i as int].0);
                    }
                }
                return false;
            }
            proof {
                let before = rs.take(i as int);
                let after = rs.take(i + 1);
                assert forall|k: int| 0 <= k < after.len() implies 0 <= (#[trigger] after[k]).0
                    < after[k].1 <= bytes.len() && is_char_boundary(bytes, after[k].0)
                    && is_char_boundary(bytes, after[k].1) by {
                    if k < i {
                        assert(after[k] == before[k]);
                    }
                }
                assert forall|k: int, j: int| 0 <= k < j < after.len() implies (
                #[trigger] after[k]).1 <= (#[trigger] after[j]).0 by {
                    assert(after[k] == before[k]);
                    if j < i {
                        assert(after[j] == before[j]);
                    } else if k < i - 1 {
                        assert(before[k].1 <= before[i - 1].0);
                    }
                }
            }
            i += 1;
        }
        proof {
            assert(rs.take(i as int) =~= rs);
        }
        true
    }

    /// A line with the given number, text and submatches.
    pub fn new(num: usize, value: &str, submatches: Vec<Range<usize>>) -> (line: Line)
        requires
            ranges_valid(value.spec_bytes(), ranges(submatches@)),
        ensures
            line@ == (LineView { num, text: value@, submatches: ranges(submatches@) }),
            line.wf(),
    {
        Line { num, value: value.to_owned(), submatches }
    }

    /// The line's number, counted from zero.
    pub fn num(&self) -> (num: usize)
        ensures
            num == self@.num,
    {
        self.num
    }

    /// The line's text.
    pub fn value(&self) -> (value: &str)
        ensures
            value@ == self@.text,
    {
        self.value.as_str()
    }

    /// How many submatches the line has.
    pub fn num_submatches(&self) -> (count: usize)
        ensures
            count == self@.submatches.len(),
    {
        self.submatches.len()
    }

    /// The line's submatches, in order.
    pub fn submatches(&self) -> (submatches: &Vec<Range<usize>>)
        ensures
            ranges(submatches@) == self@.submatches,
    {
        &self.submatches
    }
}

/// Validity passes to the ranges that follow the first.
proof fn lemma_rest_valid(bytes: Seq<u8>, ranges: Seq<(int, int)>)
    requires
        ranges_valid(bytes, ranges),
        ranges.len() > 0,
    ensures
        ranges_valid(bytes, ranges.drop_first()),
        is_char_boundary(bytes, ranges[0].1),
        ranges.len() > 1 ==> ranges[0].1 <= ranges.drop_first()[0].0,
{
    let rest = ranges.drop_first();
    assert forall|i: int| 0 <= i < rest.len() implies 0 <= (#[trigger] rest[i]).0 < rest[i].1
        <= bytes.len() && is_char_boundary(bytes, rest[i].0) && is_char_boundary(
        bytes,
        rest[i].1,
    ) by {
        assert(rest[i] == ranges[i + 1]);
    }
    assert forall|i: int, j: int| 0 <= i < j < rest.len() implies (#[trigger] rest[i]).1 <= (
    #[trigger] rest[j]).0 by {
        assert(rest[i] == ranges[i + 1]);
        assert(rest[j] == ranges[j + 1]);
    }
    if ranges.len() > 1 {
        assert(rest[0] == ranges[1]);
    }
}

/// A valid range before valid ranges makes valid ranges.
proof fn lemma_first_valid(bytes: Seq<u8>, first: (int, int), rest: Seq<(int, int)>)
    requires
        ranges_valid(bytes, rest),
        0 <= first.0 < first.1 <= bytes.len(),
        is_char_boundary(bytes, first.0),
        is_char_boundary(bytes, first.1),
        rest.len() > 0 ==> first.1 <= rest[0].0,
    ensures
        ranges_valid(bytes, seq![first] + rest),
{
    let all = seq![first] + rest;
    assert forall|k: int| 0 <= k < all.len() implies 0 <= (#[trigger] all[k]).0 < all[k].1
        <= bytes.len() && is_char_boundary(bytes, all[k].0) && is_char_boundary(
        bytes,
        all[k].1,
    ) by {
        if k > 0 {
            assert(all[k] == rest[k - 1]);
        }
    }
    assert forall|k: int, j: int| 0 <= k < j < all.len() implies (#[trigger] all[k]).1 <= (
    #[trigger] all[j]).0 by {
        assert(all[j] == rest[j - 1]);
        if k > 0 {
            assert(all[k] == rest[k - 1]);
        } else if j > 1 {
            assert(rest[0].1 <= rest[j - 1].0);
        }
    }
}

/// Every range starts at or after `from`.
spec fn starts_from(ranges: Seq<(int, int)>, from: int) -> bool {
    forall|k: int| 0 <= k < ranges.len() ==> from <= (#[trigger] ranges[k]).0
}

/// One step of [`lemma_replace_from`]: a gap and a replacement between a
/// prefix and a tail whose ranges are valid.
proof fn lemma_replace_step(
    prefix: Seq<u8>,
    gap: Seq<u8>,
    w: Seq<u8>,
    rest_tail: Seq<u8>,
    rest_ranges: Seq<(int, int)>,
)
    requires
        valid_utf8(prefix),
        valid_utf8(gap),
        valid_utf8(w),
        valid_utf8(rest_tail),
        ranges_valid(prefix + gap + w + rest_tail, rest_ranges),
        starts_from(rest_ranges, (prefix + gap + w).len() as int),
    ensures
        valid_utf8(gap + w + rest_tail),
        prefix + (gap + w + rest_tail) == prefix + gap + w + rest_tail,
        w.len() > 0 ==> ranges_valid(
            prefix + gap + w + rest_tail,
            seq![((prefix + gap).len() as int, (prefix + gap + w).len() as int)] + rest_ranges,
        ),
        w.len() > 0 ==> starts_from(
            seq![((prefix + gap).len() as int, (prefix + gap + w).len() as int)] + rest_ranges,
            prefix.len() as int,
        ),
        starts_from(rest_ranges, prefix.len() as int),
{
    let longer = prefix + gap + w;
    let full = longer + rest_tail;
    assert(valid_utf8(prefix + gap)) by {
        valid_utf8_concat(prefix, gap);
    }
    assert(valid_utf8(longer)) by {
        valid_utf8_concat(prefix + gap, w);
    }
    assert(valid_utf8(full)) by {
        valid_utf8_concat(longer, rest_tail);
    }
    assert(valid_utf8(gap + w + rest_tail)) by {
        valid_utf8_concat(gap, w);
        valid_utf8_concat(gap + w, rest_tail);
    }
    assert(prefix + (gap + w + rest_tail) =~= full);
    if w.len() > 0 {
        let start = (prefix + gap).len() as int;
        let end = longer.len() as int;
        let all = seq![(start, end)] + rest_ranges;
        assert(is_char_boundary(full, start)) by {
            assert(full.subrange(0, start) =~= prefix + gap);
            lemma_valid_prefix_boundary(full, start);
        }
        assert(is_char_boundary(full, end)) by {
            assert(full.subrange(0, end) =~= longer);
            lemma_valid_prefix_boundary(full, end);
        }
        lemma_first_valid(full, (start, end), rest_ranges);
        assert forall|k: int| 0 <= k < all.len() implies prefix.len() <= (#[trigger] all[k]).0 by {
            if k > 0 {
                assert(all[k] == rest_ranges[k - 1]);
            }
        }
    }
}

proof fn lemma_replace_from(
    bytes: Seq<u8>,
    ranges: Seq<(int, int)>,
    with: Seq<Seq<u8>>,
    pos: int,
    prefix: Seq<u8>,
)
    requires
        valid_utf8(bytes),
        ranges_valid(bytes, ranges),
        with.len() == ranges.len(),
        forall|i: int| 0 <= i < with.len() ==> valid_utf8(#[trigger] with[i]),
        is_char_boundary(bytes, pos),
        ranges.len() > 0 ==> pos <= ranges[0].0,
        valid_utf8(prefix),
    ensures
        valid_utf8(replaced_bytes(bytes, ranges, with, pos)),
        ranges_valid(
            prefix + replaced_bytes(bytes, ranges, with, pos),
            replaced_ranges(ranges, with, pos, prefix.len() as int),
        ),
        starts_from(replaced_ranges(ranges, with, pos, prefix.len() as int), prefix.len() as int),
    decreases ranges.len(),
{
    if ranges.len() == 0 {
        assert(valid_utf8(bytes.subrange(pos, bytes.len() as int))) by {
            is_char_boundary_start_end_of_seq(bytes);
            lemma_boundary_in_part(bytes, pos, bytes.len() as int, pos);
        }
    } else {
        let (s, e) = ranges[0];
        let gap = bytes.subrange(pos, s);
        let w = with[0];
        let rest = ranges.drop_first();
        let rest_with = with.drop_first();
        let longer = prefix + gap + w;
        lemma_rest_valid(bytes, ranges);
        assert(valid_utf8(gap)) by {
            lemma_boundary_in_part(bytes, pos, s, pos);
        }
        assert forall|i: int| 0 <= i < rest_with.len() implies valid_utf8(
            #[trigger] rest_with[i],
        ) by {
            assert(rest_with[i] == with[i + 1]);
        }
        assert(valid_utf8(longer)) by {
            valid_utf8_concat(prefix, gap);
            valid_utf8_concat(prefix + gap, w);
        }
        lemma_replace_from(bytes, rest, rest_with, e, longer);
        lemma_replace_step(
            prefix,
            gap,
            w,
            replaced_bytes(bytes, rest, rest_with, e),
            replaced_ranges(rest, rest_with, e, longer.len() as int),
        );
    }
}

/// Replacing the submatches of a valid line by valid texts gives valid text
/// with valid submatches: the ranges that are left are non-empty, in
/// ascending order and apart, whatever the lengths of the replacements.
pub proof fn lemma_replace_keeps_valid(
    bytes: Seq<u8>,
    ranges: Seq<(int, int)>,
    with: Seq<Seq<u8>>,
)
    requires
        valid_utf8(bytes),
        ranges_valid(bytes, ranges),
        with.len() == ranges.len(),
        forall|i: int| 0 <= i < with.len() ==> valid_utf8(#[trigger] with[i]),
    ensures
        valid_utf8(replaced_bytes(bytes, ranges, with, 0)),
        ranges_valid(replaced_bytes(bytes, ranges, with, 0), replaced_ranges(ranges, with, 0, 0)),
{
    is_char_boundary_start_end_of_seq(bytes);
    let empty = Seq::<u8>::empty();
    lemma_replace_from(bytes, ranges, with, 0, empty);
    assert(empty + replaced_bytes(bytes, ranges, with, 0) =~= replaced_bytes(
        bytes,
        ranges,
        with,
        0,
    ));
}

proof fn lemma_adjust_from(bytes: Seq<u8>, ranges: Seq<(int, int)>, to: Seq<(int, int)>)
    requires
        valid_utf8(bytes),
        ranges_valid(bytes, ranges),
        to.len() == ranges.len(),
        forall|i: int|
            0 <= i < ranges.len() ==> narrows(
                bytes.subrange(ranges[i].0, ranges[i].1),
                #[trigger] to[i],
            ),
    ensures
        ranges_valid(bytes, adjusted_ranges(ranges, to)),
        ranges.len() > 0 ==> starts_from(adjusted_ranges(ranges, to), ranges[0].0),
    decreases ranges.len(),
{
    if ranges.len() > 0 {
        let (s, e) = ranges[0];
        let rest = ranges.drop_first();
        let rest_to = to.drop_first();
        let rest_adjusted = adjusted_ranges(rest, rest_to);
        lemma_rest_valid(bytes, ranges);
        assert forall|i: int| 0 <= i < rest.len() implies narrows(
            bytes.subrange(rest[i].0, rest[i].1),
            #[trigger] rest_to[i],
        ) by {
            assert(rest[i] == ranges[i + 1]);
            assert(rest_to[i] == to[i + 1]);
        }
        lemma_adjust_from(bytes, rest, rest_to);
        assert(narrows(bytes.subrange(s, e), to[0]));
        if to[0].0 < to[0].1 {
            let first = (s + to[0].0, s + to[0].1);
            lemma_boundary_in_part(bytes, s, e, first.0);
            lemma_boundary_in_part(bytes, s, e, first.1);
            lemma_first_valid(bytes, first, rest_adjusted);
            let all = seq![first] + rest_adjusted;
            assert forall|k: int| 0 <= k < all.len() implies s <= (#[trigger] all[k]).0 by {
                if k > 0 {
                    assert(all[k] == rest_adjusted[k - 1]);
                }
            }
        }
    }
}

/// Moving each submatch of a valid line to a part of itself leaves valid
/// submatches.
pub proof fn lemma_adjust_keeps_valid(bytes: Seq<u8>, ranges: Seq<(int, int)>, to: Seq<(int, int)>)
    requires
        valid_utf8(bytes),
        ranges_valid(bytes, ranges),
        to.len() == ranges.len(),
        forall|i: int|
            0 <= i < ranges.len() ==> narrows(
                bytes.subrange(ranges[i].0, ranges[i].1),
                #[trigger] to[i],
            ),
    ensures
        ranges_valid(bytes, adjusted_ranges(ranges, to)),
{
    lemma_adjust_from(bytes, ranges, to);
}

/// Where every part is empty, no submatch is left: the line has become a
/// context line.
pub proof fn lemma_adjust_to_nothing(ranges: Seq<(int, int)>, to: Seq<(int, int)>)
    requires
        to.len() == ranges.len(),
        forall|i: int| 0 <= i < to.len() ==> (#[trigger] to[i]).0 >= to[i].1,
    ensures
        adjusted_ranges(ranges, to) == Seq::<(int, int)>::empty(),
    decreases ranges.len(),
{
    if ranges.len() > 0 {
        let rest_to = to.drop_first();
        assert forall|i: int| 0 <= i < rest_to.len() implies (#[trigger] rest_to[i]).0
            >= rest_to[i].1 by {
            assert(rest_to[i] == to[i + 1]);
        }
        lemma_adjust_to_nothing(ranges.drop_first(), rest_to);
    }
}

proof fn lemma_spans_from_cover(bytes: Seq<u8>, ranges: Seq<(int, int)>, pos: int)
    requires
        ranges_valid(bytes, ranges),
        0 <= pos <= bytes.len(),
        ranges.len() > 0 ==> pos <= ranges[0].0,
    ensures
        spans_text(spans_from(bytes, ranges, pos)) == bytes.subrange(pos, bytes.len() as int),
    decreases ranges.len(),
{
    let spans = spans_from(bytes, ranges, pos);
    let end = bytes.len() as int;
    if ranges.len() == 0 {
        if pos < end {
            assert(spans.drop_first() =~= Seq::<(bool, Seq<u8>)>::empty());
            assert(spans_text(spans.drop_first()) =~= Seq::<u8>::empty());
            assert(spans_text(spans) =~= bytes.subrange(pos, end));
        } else {
            assert(spans_text(spans) =~= bytes.subrange(pos, end));
        }
    } else {
        let (s, e) = ranges[0];
        let rest = ranges.drop_first();
        let rest_spans = spans_from(bytes, rest, e);
        lemma_rest_valid(bytes, ranges);
        lemma_spans_from_cover(bytes, rest, e);
        let matched = seq![(true, bytes.subrange(s, e))] + rest_spans;
        assert(matched.drop_first() =~= rest_spans);
        assert(spans_text(matched) =~= bytes.subrange(s, end));
        if pos < s {
            assert(spans.drop_first() =~= matched);
            assert(spans_text(spans) =~= bytes.subrange(pos, end));
        }
    }
}

/// The spans of a valid line, joined in order, are the line's text.
pub proof fn lemma_spans_cover_text(line: LineView)
    requires
        line.wf(),
    ensures
        spans_text(line.spans()) == line.bytes(),
{
    lemma_spans_from_cover(line.bytes(), line.submatches, 0);
    assert(line.bytes().subrange(0, line.bytes().len() as int) =~= line.bytes());
}

/// No span is empty, no two unmatched spans are neighbours, and the first
/// span is unmatched only where text stands before the first range.
spec fn spans_shaped(spans: Seq<(bool, Seq<u8>)>) -> bool {
    &&& forall|k: int| 0 <= k < spans.len() ==> (#[trigger] spans[k]).1.len() > 0
    &&& forall|k: int, n: int|
        0 <= k && n == k + 1 && n < spans.len() ==> (#[trigger] spans[k]).0 || (
        #[trigger] spans[n]).0
}

proof fn lemma_spans_from_shaped(bytes: Seq<u8>, ranges: Seq<(int, int)>, pos: int)
    requires
        ranges_valid(bytes, ranges),
        0 <= pos <= bytes.len(),
        ranges.len() > 0 ==> pos <= ranges[0].0,
    ensures
        spans_shaped(spans_from(bytes, ranges, pos)),
    decreases ranges.len(),
{
    let spans = spans_from(bytes, ranges, pos);
    if ranges.len() > 0 {
        let (s, e) = ranges[0];
        let rest = ranges.drop_first();
        let rest_spans = spans_from(bytes, rest, e);
        lemma_rest_valid(bytes, ranges);
        lemma_spans_from_shaped(bytes, rest, e);
        let matched = seq![(true, bytes.subrange(s, e))] + rest_spans;
        assert(spans_shaped(matched)) by {
            assert forall|k: int| 0 <= k < matched.len() implies (#[trigger] matched[k]).1.len()
                > 0 by {
                if k > 0 {
                    assert(matched[k] == rest_spans[k - 1]);
                }
            }
            assert forall|k: int, n: int| 0 <= k && n == k + 1 && n < matched.len() implies (
            #[trigger] matched[k]).0 || (#[trigger] matched[n]).0 by {
                if k > 0 {
                    assert(matched[k] == rest_spans[k - 1]);
                    assert(matched[n] == rest_spans[n - 1]);
                }
            }
        }
        if pos < s {
            assert forall|k: int| 0 <= k < spans.len() implies (#[trigger] spans[k]).1.len()
                > 0 by {
                if k > 0 {
                    assert(spans[k] == matched[k - 1]);
                }
            }
            assert forall|k: int, n: int| 0 <= k && n == k + 1 && n < spans.len() implies (
            #[trigger] spans[k]).0 || (#[trigger] spans[n]).0 by {
                assert(spans[n] == matched[n - 1]);
                if k > 0 {
                    assert(spans[k] == matched[k - 1]);
                }
            }
        }
    }
}

/// A valid line has no empty span and no two unmatched spans side by side:
/// a submatch that was dropped leaves one unmatched span, not a split one.
pub proof fn lemma_spans_never_empty(line: LineView)
    requires
        line.wf(),
    ensures
        forall|k: int| 0 <= k < line.spans().len() ==> (#[trigger] line.spans()[k]).1.len() > 0,
        forall|k: int, n: int|
            0 <= k && n == k + 1 && n < line.spans().len() ==> (#[trigger] line.spans()[k]).0 || (
            #[trigger] line.spans()[n]).0,
{
    lemma_spans_from_shaped(line.bytes(), line.submatches, 0);
}

/// By how many bytes the replacements of the first `upto` submatches make
/// the text longer; negative where they make it shorter.
pub open spec fn shift_before(ranges: Seq<(int, int)>, with: Seq<Seq<u8>>, upto: int) -> int
    decreases upto,
{
    if upto <= 0 || ranges.len() == 0 {
        0
    } else {
        with[0].len() - (ranges[0].1 - ranges[0].0) + shift_before(
            ranges.drop_first(),
            with.drop_first(),
            upto - 1,
        )
    }
}

proof fn lemma_shift_from(
    ranges: Seq<(int, int)>,
    with: Seq<Seq<u8>>,
    pos: int,
    out: int,
    i: int,
)
    requires
        with.len() == ranges.len(),
        forall|j: int| 0 <= j < with.len() ==> (#[trigger] with[j]).len() > 0,
        0 <= i < ranges.len(),
    ensures
        replaced_ranges(ranges, with, pos, out).len() == ranges.len(),
        replaced_ranges(ranges, with, pos, out)[i].0 == out - pos + ranges[i].0 + shift_before(
            ranges,
            with,
            i,
        ),
        replaced_ranges(ranges, with, pos, out)[i].1 == replaced_ranges(ranges, with, pos, out)[i].0
            + with[i].len(),
    decreases ranges.len(),
{
    let rest = ranges.drop_first();
    let rest_with = with.drop_first();
    let start = out + (ranges[0].0 - pos);
    let end = start + with[0].len();
    let later = replaced_ranges(rest, rest_with, ranges[0].1, end);
    assert(replaced_ranges(ranges, with, pos, out) == seq![(start, end)] + later);
    assert forall|j: int| 0 <= j < rest_with.len() implies (#[trigger] rest_with[j]).len() > 0 by {
        assert(rest_with[j] == with[j + 1]);
    }
    if rest.len() > 0 {
        lemma_shift_from(rest, rest_with, ranges[0].1, end, if i > 0 {
            i - 1
        } else {
            0
        });
    }
    if i > 0 {
        assert((seq![(start, end)] + later)[i] == later[i - 1]);
        assert(rest[i - 1] == ranges[i]);
        assert(rest_with[i - 1] == with[i]);
    }
}

/// Where no replacement is empty, every submatch is kept, and each stands
/// where it stood, moved by what the replacements before it have added to
/// the text or taken from it.
pub proof fn lemma_replacement_shifts(ranges: Seq<(int, int)>, with: Seq<Seq<u8>>, i: int)
    requires
        with.len() == ranges.len(),
        forall|j: int| 0 <= j < with.len() ==> (#[trigger] with[j]).len() > 0,
        0 <= i < ranges.len(),
    ensures
        replaced_ranges(ranges, with, 0, 0).len() == ranges.len(),
        replaced_ranges(ranges, with, 0, 0)[i] == (
            ranges[i].0 + shift_before(ranges, with, i),
            ranges[i].0 + shift_before(ranges, with, i) + with[i].len(),
        ),
{
    lemma_shift_from(ranges, with, 0, 0, i);
}

/// After a replacement the line is valid again, and so its spans are as
/// those of any valid line: none is empty, no two unmatched spans are
/// neighbours, and together they are the new text. A submatch whose
/// replacement was empty has left no span behind.
pub proof fn lemma_replaced_line_spans(old: LineView, with: Seq<Seq<u8>>, new: LineView)
    requires
        old.wf(),
        with.len() == old.submatches.len(),
        forall|i: int| 0 <= i < with.len() ==> valid_utf8(#[trigger] with[i]),
        replaced_with(old, with, new),
    ensures
        new.wf(),
        spans_text(new.spans()) == new.bytes(),
        forall|k: int| 0 <= k < new.spans().len() ==> (#[trigger] new.spans()[k]).1.len() > 0,
        forall|k: int, n: int|
            0 <= k && n == k + 1 && n < new.spans().len() ==> (#[trigger] new.spans()[k]).0 || (
            #[trigger] new.spans()[n]).0,
{
    encode_utf8_valid_utf8(old.text);
    lemma_replace_keeps_valid(old.bytes(), old.submatches, with);
    lemma_spans_cover_text(new);
    lemma_spans_never_empty(new);
}

/// What is left to walk of a line: the spans from a position on.
pub struct LinePartsIter<'a> {
    value: &'a str,
    pos: usize,
    next_submatch: usize,
    submatches: &'a Vec<Range<usize>>,
}

impl<'a> LinePartsIter<'a> {
    /// The walk stands inside a valid line, on a character boundary, at or
    /// before the next submatch.
    pub closed spec fn wf(&self) -> bool {
        let bytes = self.value.spec_bytes();
        let all = ranges(self.submatches@);
        &&& ranges_valid(bytes, all)
        &&& self.next_submatch <= all.len()
        &&& is_char_boundary(bytes, self.pos as int)
        &&& self.next_submatch > 0 ==> all[self.next_submatch - 1].1 <= self.pos
        &&& self.next_submatch < all.len() ==> self.pos <= all[self.next_submatch as int].0
    }

    /// The spans that are still to come.
    pub closed spec fn remaining(&self) -> Seq<(bool, Seq<u8>)> {
        spans_from(
            self.value.spec_bytes(),
            ranges(self.submatches@).skip(self.next_submatch as int),
            self.pos as int,
        )
    }

    /// A walk over `line` from its start.
    pub fn from_line(line: &'a Line) -> (parts: LinePartsIter<'a>)
        requires
            line.wf(),
        ensures
            parts.wf(),
            parts.remaining() == line@.spans(),
    {
        proof {
            let all = ranges(line.submatches@);
            assert(all.skip(0) =~= all);
            encode_utf8_valid_utf8(line.value@);
            is_char_boundary_start_end_of_seq(line@.bytes());
        }
        LinePartsIter {
            value: line.value.as_str(),
            pos: 0,
            next_submatch: 0,
            submatches: &line.submatches,
        }
    }

    /// The next span, if one is left: whether it is a match, and its text.
    pub fn next(&mut self) -> (part: Option<(bool, &'a str)>)
        requires
            old(self).wf(),
        ensures
            final(self).wf(),
            match part {
                None => old(self).remaining().len() == 0 && final(self).remaining()
                    == old(self).remaining(),
                Some((is_match, text)) => old(self).remaining().len() > 0 && (
                    is_match,
                    text.spec_bytes(),
                ) == old(self).remaining()[0] && final(self).remaining() == old(
                    self,
                ).remaining().drop_first(),
            },
    {
        let ghost bytes = self.value.spec_bytes();
        let ghost all = ranges(self.submatches@);
        let ghost left = all.skip(self.next_submatch as int);
        let value: &'a str = self.value;
        let submatches: &'a Vec<Range<usize>> = self.submatches;
        let len = value.as_bytes().len();
        proof {
            encode_utf8_valid_utf8(value@);
            lemma_char_boundary(bytes, self.pos as int);
        }
        if self.next_submatch < submatches.len() {
            let start = submatches[self.next_submatch].start;
            let end = submatches[self.next_submatch].end;
            proof {
                assert(left[0] == all[self.next_submatch as int]);
                assert(all[self.next_submatch as int] == (start as int, end as int));
                assert(left.drop_first() =~= all.skip(self.next_submatch + 1));
            }
            if start == self.pos {
                self.next_submatch += 1;
                self.pos = end;
                Some((true, slice(value, start, end)))
            } else {
                let text = slice(value, self.pos, start);
                self.pos = start;
                proof {
                    let matched = seq![(true, bytes.subrange(start as int, end as int))]
                        + spans_from(bytes, left.drop_first(), end as int);
                    assert(spans_from(bytes, left, start as int) == matched);
                    assert((seq![(false, text.spec_bytes())] + matched).drop_first()
                        =~= matched);
                }
                Some((false, text))
            }
        } else if self.pos == len {
            None
        } else {
            proof {
                is_char_boundary_start_end_of_seq(bytes);
            }
            let text = slice(value, self.pos, len);
            self.pos = len;
            proof {
                assert(seq![(false, text.spec_bytes())].drop_first() =~= Seq::<
                    (bool, Seq<u8>),
                >::empty());
            }
            Some((false, text))
        }
    }
}

impl Line {
    /// The line as spans, in order: for each whether it is a match, and its
    /// text. Together the spans are the whole text.
    pub fn iter(&self) -> (parts: Vec<(bool, &str)>)
        requires
            self.wf(),
        ensures
            parts_bytes(parts@) == self@.spans(),
    {
        let mut walk = LinePartsIter::from_line(self);
        let mut parts: Vec<(bool, &str)> = Vec::new();
        loop
            invariant
                walk.wf(),
                parts_bytes(parts@) + walk.remaining() == self@.spans(),
            ensures
                parts_bytes(parts@) == self@.spans(),
            decreases walk.remaining().len(),
        {
            let ghost before = parts_bytes(parts@);
            let ghost left = walk.remaining();
            match walk.next() {
                None => {
                    proof {
                        assert(before + left =~= before);
                    }
                    break ;
                },
                Some(part) => {
                    parts.push(part);
                    proof {
                        assert(parts_bytes(parts@) =~= before.push(left[0]));
                        assert(before.push(left[0]) + left.drop_first() =~= before + left);
                    }
                },
            }
        }
        parts
    }

    /// The texts of the submatches, in order.
    pub fn matched_texts(&self) -> (texts: Vec<&str>)
        requires
            self.wf(),
        ensures
            texts.len() == self@.submatches.len(),
            forall|i: int|
                0 <= i < texts.len() ==> (#[trigger] texts[i]).spec_bytes() == self@.matched(i),
    {
        let value = self.value.as_str();
        let mut texts: Vec<&str> = Vec::new();
        let mut i: usize = 0;
        while i < self.submatches.len()
            invariant
                self.wf(),
                value@ == self.value@,
                i <= self.submatches.len(),
                texts.len() == i,
                forall|k: int|
                    0 <= k < i ==> (#[trigger] texts[k]).spec_bytes() == self@.matched(k),
            decreases self.submatches.len() - i,
        {
            let start = self.submatches[i].start;
            let end = self.submatches[i].end;
            proof {
                assert(self@.submatches[i as int] == (start as int, end as int));
            }
            texts.push(slice(value, start, end));
            i += 1;
        }
        texts
    }

    /// The line with each submatch replaced by the replacement of the same
    /// index. Text outside the submatches stays; each replacement that is not
    /// empty is a submatch of the new line, at the offset where it came to
    /// stand; an empty one leaves no submatch.
    pub fn replace_with(&self, replacements: &Vec<String>) -> (line: Line)
        requires
            self.wf(),
            replacements.len() == self@.submatches.len(),
        ensures
            line.wf(),
            replaced_with(self@, texts_bytes(replacements@), line@),
    {
        let value = self.value.as_str();
        let ghost bytes = self@.bytes();
        let ghost all = self@.submatches;
        let ghost with = texts_bytes(replacements@);
        let mut new_value = String::new();
        let mut new_submatches: Vec<Range<usize>> = Vec::new();
        let mut pos: usize = 0;
        let mut i: usize = 0;
        proof {
            encode_utf8_valid_utf8(self.value@);
            is_char_boundary_start_end_of_seq(bytes);
            assert(all.skip(0) =~= all);
            assert(with.skip(0) =~= with);
            assert(encode_utf8(new_value@) =~= Seq::<u8>::empty());
            assert(ranges(new_submatches@) =~= Seq::<(int, int)>::empty());
            assert(Seq::<u8>::empty() + replaced_bytes(bytes, all, with, 0) =~= replaced_bytes(
                bytes,
                all,
                with,
                0,
            ));
            assert(Seq::<(int, int)>::empty() + replaced_ranges(all, with, 0, 0)
                =~= replaced_ranges(all, with, 0, 0));
        }
        while i < self.submatches.len()
            invariant
                self.wf(),
                value@ == self.value@,
                bytes == self@.bytes(),
                all == self@.submatches,
                with == texts_bytes(replacements@),
                with.len() == all.len(),
                valid_utf8(bytes),
                i <= self.submatches.len(),
                is_char_boundary(bytes, pos as int),
                i < all.len() ==> pos <= all[i as int].0,
                encode_utf8(new_value@) + replaced_bytes(
                    bytes,
                    all.skip(i as int),
                    with.skip(i as int),
                    pos as int,
                ) == replaced_bytes(bytes, all, with, 0),
                ranges(new_submatches@) + replaced_ranges(
                    all.skip(i as int),
                    with.skip(i as int),
                    pos as int,
                    encode_utf8(new_value@).len() as int,
                ) == replaced_ranges(all, with, 0, 0),
            decreases self.submatches.len() - i,
        {
            let start = self.submatches[i].start;
            let end = self.submatches[i].end;
            let ghost left = all.skip(i as int);
            let ghost left_with = with.skip(i as int);
            let ghost text_before = encode_utf8(new_value@);
            let ghost ranges_before = ranges(new_submatches@);
            proof {
                assert(all[i as int] == (start as int, end as int));
                assert(left[0] == all[i as int]);
                assert(left_with[0] == with[i as int]);
                assert(left.drop_first() =~= all.skip(i + 1));
                assert(left_with.drop_first() =~= with.skip(i + 1));
                if i + 1 < all.len() {
                    assert(all[i as int].1 <= all[i + 1].0);
                }
            }
            let gap = slice(value, pos, start);
            push_text(&mut new_value, gap);
            let out = byte_len(new_value.as_str());
            let replacement = replacements[i].as_str();
            if byte_len(replacement) > 0 {
                push_text(&mut new_value, replacement);
                let out_end = byte_len(new_value.as_str());
                new_submatches.push(out..out_end);
                proof {
                    assert(ranges(new_submatches@) =~= ranges_before.push(
                        (out as int, out_end as int),
                    ));
                }
            }
            proof {
                let rest_text = replaced_bytes(bytes, all.skip(i + 1), with.skip(i + 1), end as int);
                assert(encode_utf8(new_value@) =~= text_before + gap.spec_bytes() + with[i as int]);
                assert(encode_utf8(new_value@) + rest_text =~= text_before + (gap.spec_bytes()
                    + with[i as int] + rest_text));
                let rest_ranges = replaced_ranges(
                    all.skip(i + 1),
                    with.skip(i + 1),
                    end as int,
                    encode_utf8(new_value@).len() as int,
                );
                assert(out == text_before.len() + (start - pos));
                if with[i as int].len() > 0 {
                    assert(ranges(new_submatches@) + rest_ranges =~= ranges_before + (seq![
                        (out as int, encode_utf8(new_value@).len() as int),
                    ] + rest_ranges));
                }
            }
            pos = end;
            i += 1;
        }
        proof {
            lemma_char_boundary(bytes, pos as int);
            is_char_boundary_start_end_of_seq(bytes);
        }
        let len = byte_len(value);
        let tail = slice(value, pos, len);
        push_text(&mut new_value, tail);
        proof {
            assert(all.skip(i as int) =~= Seq::<(int, int)>::empty());
            assert(ranges(new_submatches@) + Seq::<(int, int)>::empty() =~= ranges(
                new_submatches@,
            ));
            assert forall|k: int| 0 <= k < with.len() implies valid_utf8(#[trigger] with[k]) by {
                encode_utf8_valid_utf8(replacements@[k]@);
            }
            lemma_replace_keeps_valid(bytes, all, with);
        }
        Line { num: self.num, value: new_value, submatches: new_submatches }
    }
}

impl Line {
    /// The line with each submatch replaced by what `replacer` returns for
    /// its text, as [`Line::replace_with`] replaces it.
    pub fn replace<R: Fn(&str) -> String>(&self, replacer: R) -> (line: Line)
        requires
            self.wf(),
            replacer_takes(replacer, self@),
        ensures
            line.wf(),
            replaced_by(replacer, self@, line@),
    {
        let replacements = self.replacements(&replacer);
        self.replace_with(&replacements)
    }

    /// What `replacer` returns for the text of each submatch, in order.
    pub fn replacements<R: Fn(&str) -> String>(&self, replacer: &R) -> (replacements: Vec<String>)
        requires
            self.wf(),
            replacer_takes(*replacer, self@),
        ensures
            replacements.len() == self@.submatches.len(),
            forall|i: int|
                0 <= i < replacements.len() ==> replacer_gives(
                    *replacer,
                    self@.matched(i),
                    #[trigger] texts_bytes(replacements@)[i],
                ),
    {
        let texts = self.matched_texts();
        let mut replacements: Vec<String> = Vec::new();
        let mut i: usize = 0;
        while i < texts.len()
            invariant
                i <= texts.len(),
                texts.len() == self@.submatches.len(),
                replacements.len() == i,
                forall|k: int|
                    0 <= k < texts.len() ==> (#[trigger] texts[k]).spec_bytes() == self@.matched(
                        k,
                    ),
                replacer_takes(*replacer, self@),
                forall|k: int|
                    0 <= k < i ==> replacer_gives(
                        *replacer,
                        self@.matched(k),
                        #[trigger] texts_bytes(replacements@)[k],
                    ),
            decreases texts.len() - i,
        {
            let ghost before = texts_bytes(replacements@);
            let text = texts[i];
            proof {
                assert(self@.matched(i as int) == text.spec_bytes());
            }
            let replacement = replacer(text);
            replacements.push(replacement);
            proof {
                let after = texts_bytes(replacements@);
                assert forall|k: int| 0 <= k < i + 1 implies replacer_gives(
                    *replacer,
                    self@.matched(k),
                    #[trigger] after[k],
                ) by {
                    if k < i {
                        assert(after[k] == before[k]);
                    }
                }
            }
            i += 1;
        }
        replacements
    }

    /// Moves each submatch to the part of it that the range of the same index
    /// in `to` names, counted from the start of the submatch, and drops the
    /// submatches whose part is empty.
    pub fn adjust_submatches_to(&mut self, to: &Vec<Range<usize>>)
        requires
            old(self).wf(),
            to.len() == old(self)@.submatches.len(),
            forall|i: int|
                0 <= i < to.len() ==> narrows(old(self)@.matched(i), #[trigger] ranges(to@)[i]),
        ensures
            final(self).wf(),
            final(self)@.num == old(self)@.num,
            final(self)@.text == old(self)@.text,
            final(self)@.submatches == adjusted_ranges(old(self)@.submatches, ranges(to@)),
    {
        let ghost bytes = self@.bytes();
        let ghost all = self@.submatches;
        let ghost parts = ranges(to@);
        let mut kept: Vec<Range<usize>> = Vec::new();
        let mut i: usize = 0;
        proof {
            assert(all.skip(0) =~= all);
            assert(parts.skip(0) =~= parts);
            assert(ranges(kept@) + adjusted_ranges(all, parts) =~= adjusted_ranges(all, parts));
        }
        while i < self.submatches.len()
            invariant
                i <= self.submatches.len(),
                all == ranges(self.submatches@),
                parts == ranges(to@),
                parts.len() == all.len(),
                bytes == encode_utf8(self.value@),
                ranges_valid(bytes, all),
                forall|k: int|
                    0 <= k < all.len() ==> narrows(
                        bytes.subrange(all[k].0, all[k].1),
                        #[trigger] parts[k],
                    ),
                ranges(kept@) + adjusted_ranges(all.skip(i as int), parts.skip(i as int))
                    == adjusted_ranges(all, parts),
            decreases self.submatches.len() - i,
        {
            let start = self.submatches[i].start;
            let part_start = to[i].start;
            let part_end = to[i].end;
            let ghost kept_before = ranges(kept@);
            proof {
                assert(all[i as int].0 == start);
                assert(parts[i as int] == (part_start as int, part_end as int));
                assert(all.skip(i as int)[0] == all[i as int]);
                assert(parts.skip(i as int)[0] == parts[i as int]);
                assert(all.skip(i as int).drop_first() =~= all.skip(i + 1));
                assert(parts.skip(i as int).drop_first() =~= parts.skip(i + 1));
            }
            if part_start < part_end {
                kept.push(start + part_start..start + part_end);
                proof {
                    let first = (start + part_start, start + part_end);
                    assert(ranges(kept@) =~= kept_before.push(first));
                    let rest = adjusted_ranges(all.skip(i + 1), parts.skip(i + 1));
                    assert(ranges(kept@) + rest =~= kept_before + (seq![first] + rest));
                }
            }
            i += 1;
        }
        proof {
            assert(all.skip(i as int) =~= Seq::<(int, int)>::empty());
            assert(ranges(kept@) + Seq::<(int, int)>::empty() =~= ranges(kept@));
            encode_utf8_valid_utf8(self.value@);
            lemma_adjust_keeps_valid(bytes, all, parts);
        }
        self.submatches = kept;
    }

    /// Moves each submatch to the part of it that `adjuster` returns for its
    /// text, as [`Line::adjust_submatches_to`] moves it: this turns a coarse
    /// match into the exact one inside it.
    pub fn adjust_submatches<A: Fn(&str) -> Range<usize>>(&mut self, adjuster: A)
        requires
            old(self).wf(),
            forall|text: &str|
                old(self)@.has_match(text.spec_bytes()) ==> #[trigger] adjuster.requires((text,)),
            forall|text: &str, out: Range<usize>|
                old(self)@.has_match(text.spec_bytes()) && #[trigger] adjuster.ensures(
                    (text,),
                    out,
                ) ==> narrows(text.spec_bytes(), (out.start as int, out.end as int)),
        ensures
            final(self).wf(),
            final(self)@.num == old(self)@.num,
            final(self)@.text == old(self)@.text,
            exists|to: Seq<(int, int)>|
                {
                    &&& to.len() == old(self)@.submatches.len()
                    &&& forall|i: int|
                        0 <= i < to.len() ==> adjuster_gives(
                            adjuster,
                            old(self)@.matched(i),
                            #[trigger] to[i],
                        )
                    &&& final(self)@.submatches == adjusted_ranges(old(self)@.submatches, to)
                },
    {
        let ghost line = self@;
        let mut to: Vec<Range<usize>> = Vec::new();
        {
            let texts = self.matched_texts();
            let mut i: usize = 0;
            while i < texts.len()
                invariant
                    i <= texts.len(),
                    texts.len() == line.submatches.len(),
                    to.len() == i,
                    forall|k: int|
                        0 <= k < texts.len() ==> (#[trigger] texts[k]).spec_bytes()
                            == line.matched(k),
                    forall|text: &str|
                        line.has_match(text.spec_bytes()) ==> #[trigger] adjuster.requires(
                            (text,),
                        ),
                    forall|text: &str, out: Range<usize>|
                        line.has_match(text.spec_bytes()) && #[trigger] adjuster.ensures(
                            (text,),
                            out,
                        ) ==> narrows(text.spec_bytes(), (out.start as int, out.end as int)),
                    forall|k: int|
                        0 <= k < i ==> adjuster_gives(
                            adjuster,
                            line.matched(k),
                            #[trigger] ranges(to@)[k],
                        ) && narrows(line.matched(k), ranges(to@)[k]),
                decreases texts.len() - i,
            {
                let ghost before = ranges(to@);
                let text = texts[i];
                proof {
                    assert(line.matched(i as int) == text.spec_bytes());
                }
                let part = adjuster(text);
                proof {
                    assert(narrows(line.matched(i as int), (part.start as int, part.end as int)));
                }
                to.push(part);
                proof {
                    let after = ranges(to@);
                    assert forall|k: int| 0 <= k < i + 1 implies adjuster_gives(
                        adjuster,
                        line.matched(k),
                        #[trigger] after[k],
                    ) && narrows(line.matched(k), after[k]) by {
                        if k < i {
                            assert(after[k] == before[k]);
                        }
                    }
                }
                i += 1;
            }
        }
        self.adjust_submatches_to(&to);
    }
}

/// What each of a list of lines stands for.
pub open spec fn lines_view(lines: Seq<Line>) -> Seq<LineView> {
    Seq::new(lines.len(), |i: int| lines[i]@)
}

/// What a matched file stands for: its path and its lines, in the order in
/// which the search gave them.
pub struct MatchedFileView {
    pub file_path: Seq<char>,
    pub lines: Seq<LineView>,
}

impl MatchedFileView {
    /// Every line is valid.
    pub open spec fn wf(self) -> bool {
        forall|i: int| 0 <= i < self.lines.len() ==> (#[trigger] self.lines[i]).wf()
    }
}

/// The lines of one file that a search gave: match lines and the context
/// lines around them.
#[derive(Debug, PartialEq, Eq)]
pub struct MatchedFile {
    file_path: String,
    lines: Vec<Line>,
}

impl View for MatchedFile {
    type V = MatchedFileView;

    closed spec fn view(&self) -> MatchedFileView {
        MatchedFileView { file_path: self.file_path@, lines: lines_view(self.lines@) }
    }
}

impl Default for MatchedFile {
    fn default() -> (file: MatchedFile)
        ensures
            file@.file_path.len() == 0,
            file@.lines.len() == 0,
    {
        MatchedFile { file_path: String::new(), lines: Vec::new() }
    }
}

impl MatchedFile {
    /// Every line of the file is valid.
    pub open spec fn wf(&self) -> bool {
        self@.wf()
    }

    /// The file at `file_path` with the given lines.
    pub fn new(file_path: &str, lines: Vec<Line>) -> (file: MatchedFile)
        ensures
            file@ == (MatchedFileView { file_path: file_path@, lines: lines_view(lines@) }),
    {
        MatchedFile { file_path: file_path.to_owned(), lines }
    }

    /// The file's path.
    pub fn file_path(&self) -> (path: &str)
        ensures
            path@ == self@.file_path,
    {
        self.file_path.as_str()
    }

    /// The file's lines, in order.
    pub fn lines(&self) -> (lines: &Vec<Line>)
        ensures
            lines_view(lines@) == self@.lines,
    {
        &self.lines
    }

    /// The file's lines, to change in place.
    pub fn lines_mut(&mut self) -> (lines: &mut Vec<Line>)
        ensures
            lines_view(lines@) == old(self)@.lines,
            final(self)@ == (MatchedFileView {
                file_path: old(self)@.file_path,
                lines: lines_view(final(lines)@),
            }),
    {
        &mut self.lines
    }

    /// The file with, in each line, each submatch replaced by the
    /// replacement of the same indices, as [`Line::replace_with`] does.
    pub fn replace_with(&self, replacements: &Vec<Vec<String>>) -> (file: MatchedFile)
        requires
            self.wf(),
            replacements.len() == self@.lines.len(),
            forall|i: int|
                0 <= i < replacements.len() ==> (#[trigger] replacements[i]).len()
                    == self@.lines[i].submatches.len(),
        ensures
            file.wf(),
            file@.file_path == self@.file_path,
            file@.lines.len() == self@.lines.len(),
            forall|i: int|
                0 <= i < file@.lines.len() ==> replaced_with(
                    self@.lines[i],
                    texts_bytes(replacements[i]@),
                    #[trigger] file@.lines[i],
                ),
    {
        let mut lines: Vec<Line> = Vec::new();
        let mut i: usize = 0;
        while i < self.lines.len()
            invariant
                self.wf(),
                i <= self.lines.len(),
                lines.len() == i,
                replacements.len() == self.lines.len(),
                forall|k: int|
                    0 <= k < replacements.len() ==> (#[trigger] replacements[k]).len()
                        == self@.lines[k].submatches.len(),
                forall|k: int|
                    0 <= k < i ==> (#[trigger] lines[k]).wf() && replaced_with(
                        self@.lines[k],
                        texts_bytes(replacements[k]@),
                        lines[k]@,
                    ),
            decreases self.lines.len() - i,
        {
            proof {
                assert(self@.lines[i as int] == self.lines[i as int]@);
                assert(self@.lines[i as int].wf());
            }
            let line = self.lines[i].replace_with(&replacements[i]);
            lines.push(line);
            i += 1;
        }
        MatchedFile { file_path: self.file_path.clone(), lines }
    }

    /// The file with, in each line, each submatch replaced by what
    /// `replacer` returns for its text.
    pub fn replace<R: Fn(&str) -> String>(&self, replacer: R) -> (file: MatchedFile)
        requires
            self.wf(),
            forall|i: int|
                0 <= i < self@.lines.len() ==> replacer_takes(replacer, #[trigger] self@.lines[i]),
        ensures
            file.wf(),
            file@.file_path == self@.file_path,
            file@.lines.len() == self@.lines.len(),
            forall|i: int|
                0 <= i < file@.lines.len() ==> replaced_by(
                    replacer,
                    self@.lines[i],
                    #[trigger] file@.lines[i],
                ),
    {
        let mut lines: Vec<Line> = Vec::new();
        let mut i: usize = 0;
        while i < self.lines.len()
            invariant
                self.wf(),
                i <= self.lines.len(),
                lines.len() == i,
                forall|k: int|
                    0 <= k < self@.lines.len() ==> replacer_takes(
                        replacer,
                        #[trigger] self@.lines[k],
                    ),
                forall|k: int|
                    0 <= k < i ==> (#[trigger] lines[k]).wf() && replaced_by(
                        replacer,
                        self@.lines[k],
                        lines[k]@,
                    ),
            decreases self.lines.len() - i,
        {
            proof {
                assert(self@.lines[i as int] == self.lines[i as int]@);
                assert(self@.lines[i as int].wf());
            }
            let replacements = self.lines[i].replacements(&replacer);
            let line = self.lines[i].replace_with(&replacements);
            lines.push(line);
            i += 1;
        }
        MatchedFile { file_path: self.file_path.clone(), lines }
    }
}

/// What each of a list of files stands for.
pub open spec fn files_view(files: Seq<MatchedFile>) -> Seq<MatchedFileView> {
    Seq::new(files.len(), |i: int| files[i]@)
}

} // verus!
