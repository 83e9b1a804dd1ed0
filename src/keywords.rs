//! Highlighting every occurrence of a set of keywords.
use vstd::prelude::*;
use crate::highlight::{sort_by_start, sorted_by_start};
use crate::sentence::{Sentence, SentenceRange, Token, lemma_positions_of_bounds};

verus! {

broadcast use vstd::std_specs::btree::group_btree_axioms, vstd::laws_cmp::group_laws_cmp;

/// The token ranges at the given positions.
pub open spec fn ranges_at(tokens: Seq<Token>, pos: Seq<usize>) -> Seq<SentenceRange> {
    pos.map_values(|i: usize| tokens[i as int])
}

/// The ranges of every occurrence of each keyword, keyword by keyword.
pub open spec fn keyword_ranges<SM>(keywords: Seq<u32>, s: &Sentence<SM>) -> Seq<SentenceRange>
    decreases keywords.len(),
{
    if keywords.len() == 0 {
        Seq::empty()
    } else {
        keyword_ranges(keywords.drop_last(), s) + ranges_at(s.tokens@, s.stored_positions(keywords.last()))
    }
}

/// Keyword highlights lie inside the sentence's text.
pub proof fn lemma_keyword_ranges_within<SM>(keywords: Seq<u32>, s: &Sentence<SM>)
    requires
        s.wf(),
        s.terms@.len() <= usize::MAX,
    ensures
        crate::highlight::ranges_within(keyword_ranges(keywords, s), s.text_len() as nat),
    decreases keywords.len(),
{
    if keywords.len() > 0 {
        lemma_keyword_ranges_within(keywords.drop_last(), s);
        let t = keywords.last();
        lemma_positions_of_bounds(s.terms@, t);
        let pre = keyword_ranges(keywords.drop_last(), s);
        let add = ranges_at(s.tokens@, s.stored_positions(t));
        let all = keyword_ranges(keywords, s);
        assert(all == pre + add);
        assert forall|i: int| 0 <= i < all.len() implies (#[trigger] all[i]).start <= all[i].end && all[i].end <= s.text_len() by {
            if i >= pre.len() {
                let p = s.stored_positions(t)[i - pre.len()];
                assert(all[i] == s.tokens@[p as int]);
            } else {
                assert(all[i] == pre[i]);
            }
        }
    }
}

pub struct KeywordHighlighter {
    pub keywords: Vec<u32>,
}

impl KeywordHighlighter {
    pub fn new(keywords: &[u32]) -> (r: KeywordHighlighter)
        ensures
            r.keywords@ == keywords@,
    {
        KeywordHighlighter { keywords: vstd::slice::slice_to_vec(keywords) }
    }

    /// The range of every occurrence of every keyword, ascending by start.
    pub fn highlight<SM>(&self, sentence: &Sentence<SM>) -> (r: Vec<SentenceRange>)
        requires
            sentence.wf(),
        ensures
            r@.to_multiset() == keyword_ranges(self.keywords@, sentence).to_multiset(),
            sorted_by_start(r@),
    {
        let mut ranges: Vec<SentenceRange> = Vec::new();
        let n_terms = sentence.terms.len();
        let mut k: usize = 0;
        while k < self.keywords.len()
            invariant
                0 <= k <= self.keywords@.len(),
                sentence.wf(),
                n_terms == sentence.terms@.len(),
                ranges@ == keyword_ranges(self.keywords@.subrange(0, k as int), sentence),
            decreases self.keywords@.len() - k,
        {
            let keyword = self.keywords[k];
            let ghost done = ranges@;
            let ghost kws = self.keywords@.subrange(0, k + 1);
            proof {
                assert(kws.drop_last() =~= self.keywords@.subrange(0, k as int));
                assert(kws.last() == keyword);
                assert(sentence.stored_positions(keyword) == crate::sentence::positions_of(sentence.terms@, keyword));
                lemma_positions_of_bounds(sentence.terms@, keyword);
            }
            match sentence.terms_by_value.get(&keyword) {
                Some(tokens) => {
                    let mut j: usize = 0;
                    while j < tokens.len()
                        invariant
                            0 <= j <= tokens@.len(),
                            sentence.wf(),
                            tokens@ == sentence.stored_positions(keyword),
                            forall|q: int| 0 <= q < tokens@.len() ==> (#[trigger] tokens@[q]) < sentence.tokens@.len(),
                            ranges@ == done + ranges_at(sentence.tokens@, tokens@.subrange(0, j as int)),
                        decreases tokens@.len() - j,
                    {
                        let idx = tokens[j];
                        let token = sentence.tokens[idx];
                        ranges.push(token);
                        assert(ranges_at(sentence.tokens@, tokens@.subrange(0, j + 1)) =~= ranges_at(
                            sentence.tokens@,
                            tokens@.subrange(0, j as int),
                        ).push(token));
                        j = j + 1;
                    }
                    assert(tokens@.subrange(0, j as int) =~= tokens@);
                },
                None => {
                    assert(ranges_at(sentence.tokens@, sentence.stored_positions(keyword)) =~= Seq::<SentenceRange>::empty());
                    assert(ranges@ =~= done + Seq::<SentenceRange>::empty());
                },
            }
            k = k + 1;
        }
        assert(self.keywords@.subrange(0, k as int) =~= self.keywords@);
        sort_by_start(&mut ranges);
        ranges
    }
}

} // verus!
