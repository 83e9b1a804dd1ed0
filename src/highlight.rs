//! Folding highlight ranges together and splitting a text by them.
use vstd::prelude::*;
use crate::sentence::{CopyableRange, SentencePart, SentenceRange};

verus! {

/// Ascending by start.
pub open spec fn sorted_by_start(s: Seq<SentenceRange>) -> bool {
    forall|i: int, j: int| 0 <= i < j < s.len() ==> (#[trigger] s[i]).start <= (#[trigger] s[j]).start
}

/// Relies on `slice::sort_unstable_by_key`: the ranges are permuted into
/// ascending order of their start.
#[verifier::external_body]
pub(crate) fn sort_by_start(v: &mut Vec<SentenceRange>)
    ensures
        final(v)@.to_multiset() == old(v)@.to_multiset(),
        sorted_by_start(final(v)@),
{
    v.sort_unstable_by_key(|r| r.start);
}

pub open spec fn max_usize(a: usize, b: usize) -> usize {
    if a >= b { a } else { b }
}

/// Folds `rest` into the open range `cur`: a range that starts before the
/// open range ends extends it, any other range closes it and opens itself.
pub open spec fn collapse_from(cur: SentenceRange, rest: Seq<SentenceRange>) -> Seq<SentenceRange>
    decreases rest.len(),
{
    if rest.len() == 0 {
        seq![cur]
    } else {
        let r = rest[0];
        if cur.end > r.start {
            collapse_from(
                CopyableRange { start: cur.start, end: max_usize(cur.end, r.end) },
                rest.drop_first(),
            )
        } else {
            seq![cur].add(collapse_from(r, rest.drop_first()))
        }
    }
}

/// The collapse of a range list: the first range is the open range, and
/// the ranges after it are folded into it.
pub open spec fn collapse(ranges: Seq<SentenceRange>) -> Seq<SentenceRange> {
    if ranges.len() == 0 {
        Seq::empty()
    } else {
        collapse_from(ranges[0], ranges.drop_first())
    }
}

/// Each range starts at or after the end of the one before.
pub open spec fn separated(s: Seq<SentenceRange>) -> bool {
    forall|i: int| 0 < i < s.len() ==> s[i - 1].end <= (#[trigger] s[i]).start
}

pub fn collapse_overlapped_ranges(ranges: &[SentenceRange]) -> (r: Vec<SentenceRange>)
    ensures
        r@ == collapse(ranges@),
{
    let mut result: Vec<SentenceRange> = Vec::new();
    if ranges.len() == 0 {
        return result;
    }
    let mut current = ranges[0];
    let mut i: usize = 1;
    assert(ranges@.subrange(1, ranges@.len() as int) =~= ranges@.drop_first());
    assert(result@.add(collapse(ranges@)) =~= collapse(ranges@));
    while i < ranges.len()
        invariant
            1 <= i <= ranges@.len(),
            result@.add(collapse_from(current, ranges@.subrange(i as int, ranges@.len() as int)))
                == collapse(ranges@),
        decreases ranges@.len() - i,
    {
        let range = ranges[i];
        let ghost rest = ranges@.subrange(i as int, ranges@.len() as int);
        assert(rest.drop_first() =~= ranges@.subrange(i + 1, ranges@.len() as int));
        assert(rest[0] == range);
        if current.end > range.start {
            let end = if current.end >= range.end { current.end } else { range.end };
            current = CopyableRange { start: current.start, end };
        } else {
            let ghost old_result = result@;
            result.push(current);
            assert(old_result.add(collapse_from(current, rest)) =~= result@.add(
                collapse_from(range, ranges@.subrange(i + 1, ranges@.len() as int)),
            ));
            current = range;
        }
        i = i + 1;
    }
    assert(ranges@.subrange(i as int, ranges@.len() as int) =~= Seq::<SentenceRange>::empty());
    result.push(current);
    assert(result@ =~= collapse(ranges@));
    result
}

proof fn lemma_collapse_from_separated(cur: SentenceRange, rest: Seq<SentenceRange>)
    ensures
        separated(collapse_from(cur, rest)),
        0 < collapse_from(cur, rest).len() <= rest.len() + 1,
        collapse_from(cur, rest)[0].start == cur.start,
    decreases rest.len(),
{
    if rest.len() > 0 {
        let r = rest[0];
        if cur.end > r.start {
            lemma_collapse_from_separated(
                CopyableRange { start: cur.start, end: max_usize(cur.end, r.end) },
                rest.drop_first(),
            );
        } else {
            lemma_collapse_from_separated(r, rest.drop_first());
            let tail = collapse_from(r, rest.drop_first());
            let out = seq![cur].add(tail);
            assert forall|i: int| 0 < i < out.len() implies out[i - 1].end <= (#[trigger] out[i]).start by {
                if i > 1 {
                    assert(out[i - 1] == tail[i - 2]);
                    assert(out[i] == tail[i - 1]);
                }
            }
        }
    }
}

proof fn lemma_collapse_from_separated_fixed(cur: SentenceRange, rest: Seq<SentenceRange>)
    requires
        separated(seq![cur].add(rest)),
    ensures
        collapse_from(cur, rest) == seq![cur].add(rest),
    decreases rest.len(),
{
    let all = seq![cur].add(rest);
    if rest.len() == 0 {
        assert(all =~= seq![cur]);
    } else {
        let r = rest[0];
        assert(all[1] == r);
        let tail = rest.drop_first();
        let next = seq![r].add(tail);
        assert(next =~= rest);
        assert forall|i: int| 0 < i < next.len() implies next[i - 1].end <= (#[trigger] next[i]).start by {
            assert(next[i] == all[i + 1]);
            assert(next[i - 1] == all[i]);
        }
        lemma_collapse_from_separated_fixed(r, tail);
    }
}

proof fn lemma_collapse_separated_fixed(s: Seq<SentenceRange>)
    requires
        separated(s),
    ensures
        collapse(s) == s,
{
    if s.len() > 0 {
        assert(seq![s[0]].add(s.drop_first()) =~= s);
        lemma_collapse_from_separated_fixed(s[0], s.drop_first());
    }
}

/// Collapsing never lengthens the list, and a non-empty list stays
/// non-empty.
pub proof fn lemma_collapse_len(ranges: Seq<SentenceRange>)
    ensures
        collapse(ranges).len() <= ranges.len(),
        ranges.len() > 0 ==> collapse(ranges).len() > 0,
{
    if ranges.len() > 0 {
        lemma_collapse_from_separated(ranges[0], ranges.drop_first());
    }
}

/// Folding keeps every range inside the text.
pub proof fn lemma_collapse_from_within(cur: SentenceRange, rest: Seq<SentenceRange>, len: nat)
    requires
        cur.start <= cur.end <= len,
        ranges_within(rest, len),
    ensures
        collapse_from(cur, rest).len() > 0,
        ranges_within(collapse_from(cur, rest), len),
    decreases rest.len(),
{
    if rest.len() > 0 {
        let r = rest[0];
        assert(ranges_within(rest.drop_first(), len)) by {
            assert forall|i: int| 0 <= i < rest.drop_first().len() implies (#[trigger] rest.drop_first()[i]).start <= rest.drop_first()[i].end
                && rest.drop_first()[i].end <= len by {
                assert(rest.drop_first()[i] == rest[i + 1]);
            }
        }
        if cur.end > r.start {
            lemma_collapse_from_within(
                CopyableRange { start: cur.start, end: max_usize(cur.end, r.end) },
                rest.drop_first(),
                len,
            );
        } else {
            lemma_collapse_from_within(r, rest.drop_first(), len);
            let tail = collapse_from(r, rest.drop_first());
            let out = seq![cur].add(tail);
            assert forall|i: int| 0 <= i < out.len() implies (#[trigger] out[i]).start <= out[i].end && out[i].end <= len by {
                if i > 0 {
                    assert(out[i] == tail[i - 1]);
                }
            }
        }
    }
}

/// Collapsing a non-empty list of ranges inside the text gives a non-empty
/// list of ranges inside the text.
pub proof fn lemma_collapse_within(ranges: Seq<SentenceRange>, len: nat)
    requires
        ranges_within(ranges, len),
    ensures
        ranges.len() > 0 ==> collapse(ranges).len() > 0,
        ranges_within(collapse(ranges), len),
{
    if ranges.len() > 0 {
        assert(ranges_within(ranges.drop_first(), len)) by {
            assert forall|i: int| 0 <= i < ranges.drop_first().len() implies (#[trigger] ranges.drop_first()[i]).start
                <= ranges.drop_first()[i].end && ranges.drop_first()[i].end <= len by {
                assert(ranges.drop_first()[i] == ranges[i + 1]);
            }
        }
        lemma_collapse_from_within(ranges[0], ranges.drop_first(), len);
    }
}

proof fn lemma_perm_within(a: Seq<SentenceRange>, b: Seq<SentenceRange>, len: nat)
    requires
        a.to_multiset() == b.to_multiset(),
        ranges_within(a, len),
    ensures
        ranges_within(b, len),
        a.len() == b.len(),
{
    broadcast use vstd::seq_lib::group_to_multiset_ensures;
    assert forall|i: int| 0 <= i < b.len() implies (#[trigger] b[i]).start <= b[i].end && b[i].end <= len by {
        assert(b.contains(b[i]));
        assert(b.to_multiset().count(b[i]) > 0);
        assert(a.contains(b[i]));
        let k = choose|k: int| 0 <= k < a.len() && a[k] == b[i];
    }
    assert(a.to_multiset().len() == a.len());
    assert(b.to_multiset().len() == b.len());
}

/// A permutation of ranges inside the text is inside the text.
pub proof fn lemma_perm_within_pub(a: Seq<SentenceRange>, b: Seq<SentenceRange>, len: nat)
    requires
        a.to_multiset() == b.to_multiset(),
        ranges_within(a, len),
    ensures
        ranges_within(b, len),
        a.len() == b.len(),
{
    lemma_perm_within(a, b, len);
}

/// `parts` is the collapse of `all` once sorted by start.
pub open spec fn collapsed_from(parts: Seq<SentenceRange>, all: Seq<SentenceRange>) -> bool {
    exists|p: Seq<SentenceRange>| #![trigger collapse(p)]
        p.to_multiset() == all.to_multiset() && sorted_by_start(p) && parts == collapse(p)
}

/// Sorts highlights by start and folds overlapping ones together.
pub fn sort_and_collapse(highlights: Vec<SentenceRange>, len: Ghost<nat>) -> (r: Vec<SentenceRange>)
    requires
        ranges_within(highlights@, len@),
    ensures
        ranges_within(r@, len@),
        highlights@.len() > 0 <==> r@.len() > 0,
        collapsed_from(r@, highlights@),
{
    let mut highlights = highlights;
    let ghost before = highlights@;
    sort_by_start(&mut highlights);
    proof {
        lemma_perm_within(before, highlights@, len@);
        lemma_collapse_within(highlights@, len@);
    }
    let r = collapse_overlapped_ranges(highlights.as_slice());
    r
}

/// Collapsing is idempotent: collapsing a collapsed list gives it back
/// unchanged.
pub proof fn lemma_collapse_idempotent(ranges: Seq<SentenceRange>)
    ensures
        collapse(collapse(ranges)) == collapse(ranges),
{
    if ranges.len() > 0 {
        lemma_collapse_from_separated(ranges[0], ranges.drop_first());
        lemma_collapse_separated_fixed(collapse(ranges));
    }
}

/// The parts of the text `cursor..len` once the ranges are highlighted: the
/// gap before each range (if any) is normal, each range is highlighted, and
/// what is left after the last range is normal.
pub open spec fn parts_from(ranges: Seq<SentenceRange>, cursor: usize, len: usize) -> Seq<SentencePart>
    decreases ranges.len(),
{
    if ranges.len() == 0 {
        if cursor < len {
            seq![SentencePart::Normal(CopyableRange { start: cursor, end: len })]
        } else {
            Seq::empty()
        }
    } else {
        let r = ranges[0];
        let gap = if cursor < r.start {
            seq![SentencePart::Normal(CopyableRange { start: cursor, end: r.start })]
        } else {
            Seq::empty()
        };
        gap.push(SentencePart::Highlight(r)).add(parts_from(ranges.drop_first(), r.end, len))
    }
}

/// Each range lies inside a text of `len` bytes.
pub open spec fn ranges_within(ranges: Seq<SentenceRange>, len: nat) -> bool {
    forall|i: int| 0 <= i < ranges.len() ==> (#[trigger] ranges[i]).start <= ranges[i].end && ranges[i].end <= len
}

pub fn highlight_by_ranges(ranges: &[SentenceRange], text: &str) -> (r: Vec<SentencePart>)
    requires
        ranges_within(ranges@, text.len() as nat),
    ensures
        r@ == parts_from(ranges@, 0, text.len()),
{
    let len = text.len();
    let mut cursor: usize = 0;
    let mut results: Vec<SentencePart> = Vec::new();
    let mut i: usize = 0;
    assert(ranges@.subrange(0, ranges@.len() as int) =~= ranges@);
    assert(results@.add(parts_from(ranges@, 0, len)) =~= parts_from(ranges@, 0, len));
    while i < ranges.len()
        invariant
            0 <= i <= ranges@.len(),
            len == text.len(),
            results@.add(parts_from(ranges@.subrange(i as int, ranges@.len() as int), cursor, len))
                == parts_from(ranges@, 0, len),
        decreases ranges@.len() - i,
    {
        let range = ranges[i];
        let ghost rest = ranges@.subrange(i as int, ranges@.len() as int);
        let ghost next = ranges@.subrange(i + 1, ranges@.len() as int);
        assert(rest.drop_first() =~= next);
        assert(rest[0] == range);
        let ghost old_results = results@;
        if cursor < range.start {
            results.push(SentencePart::Normal(CopyableRange { start: cursor, end: range.start }));
        }
        results.push(SentencePart::Highlight(range));
        assert(old_results.add(parts_from(rest, cursor, len)) =~= results@.add(parts_from(next, range.end, len)));
        cursor = range.end;
        i = i + 1;
    }
    assert(ranges@.subrange(i as int, ranges@.len() as int) =~= Seq::<SentenceRange>::empty());
    let ghost old_results = results@;
    if cursor < len {
        results.push(SentencePart::Normal(CopyableRange { start: cursor, end: len }));
    }
    assert(results@ =~= old_results.add(parts_from(Seq::<SentenceRange>::empty(), cursor, len)));
    results
}

} // verus!
