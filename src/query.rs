//! The query algebra: phrase, keyword, intersection and union queries over
//! the posting lists of a search engine.
use vstd::prelude::*;
use crate::filter::DocumentFilter;
use crate::id_list::{
    SentenceIdList, holds, is_merge_of, lemma_merge_contains, search_sorted, sorted, strictly_sorted,
    valid_sorted, valid_strictly_sorted,
};
use crate::keywords::KeywordHighlighter;
use crate::phrase::PhraseHighlighter;
use crate::searcher::{SearchEngine, SearchResult, sentence_key};
use crate::highlight::{collapsed_from, ranges_within, sort_and_collapse, sorted_by_start};
use crate::keywords::{keyword_ranges, lemma_keyword_ranges_within};
use crate::phrase::{phrase_ranges, lemma_phrase_ranges_within};
use crate::sentence::{Sentence, SentenceRange};
use crate::sentence::{SentenceId, id_lt, id_le, is_valid_id, zero_id, lemma_id_key_injective};

verus! {

/// What a query is evaluated for: a sub-query may skip work that its parent
/// does again.
#[derive(Clone, Copy, Debug, PartialEq, Eq, Structural)]
pub enum CallerType {
    Intersection,
    Union,
    TopLevel,
}

impl CallerType {
    pub fn intersect(&self) -> (r: bool)
        ensures
            r == (*self == CallerType::Intersection),
    {
        *self == CallerType::Intersection
    }

    pub fn union(&self) -> (r: bool)
        ensures
            r == (*self == CallerType::Union),
    {
        *self == CallerType::Union
    }

    pub fn top_level(&self) -> (r: bool)
        ensures
            r == (*self == CallerType::TopLevel),
    {
        *self == CallerType::TopLevel
    }
}

/// `id` is in the posting list of every term, and there is at least one term.
pub open spec fn in_all_postings<DM, SM>(db: &SearchEngine<DM, SM>, terms: Seq<u32>, id: SentenceId) -> bool {
    &&& terms.len() > 0
    &&& forall|i: int| 0 <= i < terms.len() ==> #[trigger] db.posting(terms[i]).contains(id)
}

/// `id` is in the posting list of some term.
pub open spec fn in_some_posting<DM, SM>(db: &SearchEngine<DM, SM>, terms: Seq<u32>, id: SentenceId) -> bool {
    exists|i: int| 0 <= i < terms.len() && #[trigger] db.posting(terms[i]).contains(id)
}

/// The document of `id` exists and the filter lets it through.
pub open spec fn doc_accepted<DM, SM, DF: DocumentFilter<DM>>(db: &SearchEngine<DM, SM>, df: &DF, id: SentenceId) -> bool {
    (id.doc as int) < db.doc_meta@.len() && df.accepts(db.meta_of(id))
}

/// The list holds no tombstone.
pub open spec fn no_tombstones(s: Seq<SentenceId>) -> bool {
    forall|i: int| 0 <= i < s.len() ==> is_valid_id(#[trigger] s[i])
}

/// A list holds exactly the valid ids that satisfy `pred`, ascending
/// (strictly so when `strict`).
pub open spec fn lists_exactly(s: Seq<SentenceId>, pred: spec_fn(SentenceId) -> bool, strict: bool) -> bool {
    &&& valid_sorted(s)
    &&& strict ==> valid_strictly_sorted(s)
    &&& forall|id: SentenceId| is_valid_id(id) ==> (#[trigger] s.contains(id) <==> pred(id))
}

/// Keeps in `ids` the valid ids found in the sorted list `set`.
fn retain_members(ids: &mut SentenceIdList, set: &[SentenceId])
    requires
        sorted(set@),
    ensures
        final(ids)@.len() == old(ids)@.len(),
        forall|k: int| 0 <= k < old(ids)@.len() ==> #[trigger] final(ids)@[k] == if is_valid_id(old(ids)@[k]) && set@.contains(old(ids)@[k]) {
            old(ids)@[k]
        } else {
            zero_id()
        },
{
    let ghost orig = ids@;
    let mut i: usize = 0;
    while i < ids.ids.len()
        invariant
            0 <= i <= orig.len(),
            sorted(set@),
            ids@.len() == orig.len(),
            forall|k: int| i <= k < orig.len() ==> ids@[k] == orig[k],
            forall|k: int| 0 <= k < i ==> #[trigger] ids@[k] == if is_valid_id(orig[k]) && set@.contains(orig[k]) {
                orig[k]
            } else {
                zero_id()
            },
        decreases orig.len() - i,
    {
        let v = ids.ids[i];
        if v.is_valid() && search_sorted(set, &v).is_err() {
            ids.ids.set(i, SentenceId::zeroed());
        }
        i = i + 1;
    }
}

/// Keeps in `ids` the valid ids whose document the filter accepts.
fn retain_accepted<DM, SM, DF: DocumentFilter<DM>>(ids: &mut SentenceIdList, db: &SearchEngine<DM, SM>, df: &DF)
    ensures
        final(ids)@.len() == old(ids)@.len(),
        forall|k: int| 0 <= k < old(ids)@.len() ==> #[trigger] final(ids)@[k] == if is_valid_id(old(ids)@[k]) && doc_accepted(db, df, old(ids)@[k]) {
            old(ids)@[k]
        } else {
            zero_id()
        },
{
    let ghost orig = ids@;
    let mut i: usize = 0;
    while i < ids.ids.len()
        invariant
            0 <= i <= orig.len(),
            ids@.len() == orig.len(),
            forall|k: int| i <= k < orig.len() ==> ids@[k] == orig[k],
            forall|k: int| 0 <= k < i ==> #[trigger] ids@[k] == if is_valid_id(orig[k]) && doc_accepted(db, df, orig[k]) {
                orig[k]
            } else {
                zero_id()
            },
        decreases orig.len() - i,
    {
        let v = ids.ids[i];
        if v.is_valid() {
            let doc = v.doc as usize;
            let accepted = doc < db.doc_meta.len() && df.filter_document(&db.doc_meta[doc]);
            if !accepted {
                ids.ids.set(i, SentenceId::zeroed());
            }
        }
        i = i + 1;
    }
}

/// The index of a shortest posting list among those of `terms`.
fn shortest_posting<DM, SM>(db: &SearchEngine<DM, SM>, terms: &[u32]) -> (m: usize)
    requires
        terms@.len() > 0,
    ensures
        m < terms@.len(),
{
    let mut best: usize = 0;
    let mut best_len = db.posting_list(terms[0]).len();
    let mut i: usize = 1;
    while i < terms.len()
        invariant
            1 <= i <= terms@.len(),
            best < terms@.len(),
        decreases terms@.len() - i,
    {
        let l = db.posting_list(terms[i]).len();
        if l < best_len {
            best = i;
            best_len = l;
        }
        i = i + 1;
    }
    best
}

/// The sentences holding every term (and at least one term) whose document
/// passes the filter: the shortest posting list with every other id
/// replaced by the tombstone.
fn find_all_terms<DM, SM, DF: DocumentFilter<DM>>(db: &SearchEngine<DM, SM>, terms: &[u32], df: &DF) -> (r: SentenceIdList)
    requires
        db.wf(),
    ensures
        lists_exactly(r@, |id: SentenceId| in_all_postings(db, terms@, id) && doc_accepted(db, df, id), true),
{
    if terms.len() == 0 {
        return SentenceIdList { ids: Vec::new() };
    }
    let m = shortest_posting(db, terms);
    let seed_list = db.posting_list(terms[m]);
    let ghost seed = seed_list@;
    let mut ids = SentenceIdList::from_slice(seed_list);
    let mut i: usize = 0;
    while i < terms.len()
        invariant
            db.wf(),
            m < terms@.len(),
            seed == db.posting(terms@[m as int]),
            0 <= i <= terms@.len(),
            ids@.len() == seed.len(),
            forall|k: int| 0 <= k < seed.len() ==> #[trigger] ids@[k] == if (forall|j: int| 0 <= j < i ==> #[trigger] db.posting(terms@[j]).contains(seed[k])) {
                seed[k]
            } else {
                zero_id()
            },
        decreases terms@.len() - i,
    {
        let ghost before = ids@;
        if i != m {
            let set = db.posting_list(terms[i]);
            proof {
                assert(strictly_sorted(db.posting(terms@[i as int])));
                assert(sorted(set@));
            }
            retain_members(&mut ids, set);
        }
        proof {
            assert forall|k: int| 0 <= k < seed.len() implies #[trigger] ids@[k] == if (forall|j: int| 0 <= j < i + 1 ==> #[trigger] db.posting(terms@[j]).contains(seed[k])) {
                seed[k]
            } else {
                zero_id()
            } by {
                assert(is_valid_id(seed[k]));
                assert(seed.contains(seed[k]));
                if forall|j: int| 0 <= j < i + 1 ==> #[trigger] db.posting(terms@[j]).contains(seed[k]) {
                    assert(forall|j: int| 0 <= j < i ==> #[trigger] db.posting(terms@[j]).contains(seed[k]));
                } else {
                    let j = choose|j: int| 0 <= j < i + 1 && !db.posting(terms@[j]).contains(seed[k]);
                    if j < i {
                        assert(!(forall|j: int| 0 <= j < i ==> #[trigger] db.posting(terms@[j]).contains(seed[k])));
                    }
                }
            }
        }
        i = i + 1;
    }
    let ghost after_terms = ids@;
    if df.needed() {
        retain_accepted(&mut ids, db, df);
    }
    proof {
        assert forall|k: int| 0 <= k < seed.len() implies #[trigger] ids@[k] == if in_all_postings(db, terms@, seed[k]) && doc_accepted(db, df, seed[k]) {
            seed[k]
        } else {
            zero_id()
        } by {
            assert(is_valid_id(seed[k]));
            assert((seed[k].doc as int) < db.doc_meta@.len());
        }
        assert forall|a: int, b: int| 0 <= a < b < ids@.len() && is_valid_id(#[trigger] ids@[a]) && is_valid_id(#[trigger] ids@[b]) implies id_lt(ids@[a], ids@[b]) by {
            assert(strictly_sorted(seed));
        }
        assert forall|id: SentenceId| is_valid_id(id) implies (#[trigger] ids@.contains(id) <==> in_all_postings(db, terms@, id) && doc_accepted(db, df, id)) by {
            if ids@.contains(id) {
                let k = choose|k: int| 0 <= k < ids@.len() && ids@[k] == id;
                assert(ids@[k] == seed[k]);
            }
            if in_all_postings(db, terms@, id) && doc_accepted(db, df, id) {
                assert(db.posting(terms@[m as int]).contains(id));
                let k = choose|k: int| 0 <= k < seed.len() && seed[k] == id;
                assert(ids@[k] == id);
            }
        }
    }
    ids
}

/// Appends the merge of `acc` and the sorted `list` into a new sorted list
/// holding the ids of both.
fn merge_into(acc: Vec<SentenceId>, list: &[SentenceId]) -> (r: Vec<SentenceId>)
    requires
        sorted(acc@),
        sorted(list@),
    ensures
        sorted(r@),
        forall|x: SentenceId| #[trigger] r@.contains(x) <==> acc@.contains(x) || list@.contains(x),
{
    let merged = SentenceIdList::merge_slices(acc.as_slice(), list);
    proof {
        lemma_merge_contains(merged@, acc@, list@);
    }
    merged.ids
}

/// Sentences holding every term of a phrase, in documents that pass the
/// filter. Whether the terms stand next to each other is checked when the
/// sentence is highlighted.
pub struct PhraseQuery<DF> {
    pub phrase: Vec<u32>,
    pub highlighter: PhraseHighlighter,
    pub document_filter: DF,
}

/// Sentences holding at least one of the keywords.
pub struct KeywordsQuery<DF> {
    pub keywords: Vec<u32>,
    pub highlighter: KeywordHighlighter,
    pub document_filter: DF,
}

/// Sentences matched by every sub-query.
pub struct IntersectingQuery<DF> {
    pub queries: Vec<DynamicQuery<DF>>,
    pub document_filter: DF,
}

/// Sentences matched by every phrase; the posting lists of all their terms
/// are intersected in one pass.
pub struct IntersectingPhraseQuery<DF> {
    pub queries: Vec<PhraseQuery<DF>>,
    pub document_filter: DF,
}

/// Sentences matched by any sub-query.
pub struct UnionQuery<DF> {
    pub queries: Vec<DynamicQuery<DF>>,
}

pub enum DynamicQuery<DF> {
    Phrase(PhraseQuery<DF>),
    Keywords(KeywordsQuery<DF>),
    Intersection(IntersectingQuery<DF>),
    PhraseIntersection(IntersectingPhraseQuery<DF>),
    Union(UnionQuery<DF>),
}

/// Every phrase has a word: an empty phrase matches nothing, so neither
/// does an intersection holding one.
pub open spec fn phrases_nonempty<DF>(qs: Seq<PhraseQuery<DF>>) -> bool {
    forall|i: int| 0 <= i < qs.len() ==> (#[trigger] qs[i]).phrase@.len() > 0
}

/// The terms of all the phrases, one phrase after the other.
pub open spec fn all_phrase_terms<DF>(qs: Seq<PhraseQuery<DF>>) -> Seq<u32>
    decreases qs.len(),
{
    if qs.len() == 0 {
        Seq::empty()
    } else {
        all_phrase_terms(qs.drop_last()) + qs.last().phrase@
    }
}

impl<DF> PhraseQuery<DF> {
    pub open spec fn wf(&self) -> bool {
        &&& self.highlighter.wf()
        &&& self.highlighter.phrase@ == self.phrase@
    }

    pub fn new(phrase: &[u32], document_filter: DF) -> (r: PhraseQuery<DF>)
        ensures
            r.wf(),
            r.phrase@ == phrase@,
            r.document_filter == document_filter,
    {
        PhraseQuery {
            phrase: vstd::slice::slice_to_vec(phrase),
            highlighter: PhraseHighlighter::new(phrase),
            document_filter,
        }
    }

    pub fn find_sentence_ids<DM, SM>(&self, db: &SearchEngine<DM, SM>, caller: CallerType) -> (r: SentenceIdList) where
        DF: DocumentFilter<DM>,
        requires
            db.wf(),
        ensures
            lists_exactly(
                r@,
                |id: SentenceId| in_all_postings(db, self.phrase@, id) && doc_accepted(db, &self.document_filter, id),
                true,
            ),
    {
        find_all_terms(db, self.phrase.as_slice(), &self.document_filter)
    }
}

impl<DF> KeywordsQuery<DF> {
    pub open spec fn wf(&self) -> bool {
        self.highlighter.keywords@ == self.keywords@
    }

    pub fn new(keywords: &[u32], document_filter: DF) -> (r: KeywordsQuery<DF>)
        ensures
            r.wf(),
            r.keywords@ == keywords@,
            r.document_filter == document_filter,
    {
        KeywordsQuery {
            keywords: vstd::slice::slice_to_vec(keywords),
            highlighter: KeywordHighlighter::new(keywords),
            document_filter,
        }
    }

    /// The sentences holding some keyword. The filter and the removal of
    /// duplicates are left to an intersecting parent, which does both.
    pub fn find_sentence_ids<DM, SM>(&self, db: &SearchEngine<DM, SM>, caller: CallerType) -> (r: SentenceIdList) where
        DF: DocumentFilter<DM>,
        requires
            db.wf(),
        ensures
            lists_exactly(
                r@,
                |id: SentenceId| in_some_posting(db, self.keywords@, id)
                    && (caller == CallerType::Intersection || doc_accepted(db, &self.document_filter, id)),
                caller != CallerType::Intersection,
            ),
            caller == CallerType::Intersection ==> no_tombstones(r@),
    {
        let ghost kws = self.keywords@;
        let mut ids = if self.keywords.len() == 2 {
            let lhs = db.posting_list(self.keywords[0]);
            let rhs = db.posting_list(self.keywords[1]);
            proof {
                assert(strictly_sorted(db.posting(kws[0])));
                assert(strictly_sorted(db.posting(kws[1])));
            }
            let mut ids = SentenceIdList::merge_slices(lhs, rhs);
            proof {
                lemma_merge_contains(ids@, lhs@, rhs@);
                assert forall|x: SentenceId| #[trigger] ids@.contains(x) <==> in_some_posting(db, kws, x) by {
                    if in_some_posting(db, kws, x) {
                        let i = choose|i: int| 0 <= i < kws.len() && #[trigger] db.posting(kws[i]).contains(x);
                        assert(i == 0 || i == 1);
                    }
                }
            }
            if !caller.intersect() {
                ids.dedup();
            }
            ids
        } else {
            let mut acc: Vec<SentenceId> = Vec::new();
            let mut i: usize = 0;
            while i < self.keywords.len()
                invariant
                    db.wf(),
                    kws == self.keywords@,
                    0 <= i <= kws.len(),
                    sorted(acc@),
                    forall|x: SentenceId| #[trigger] acc@.contains(x) <==> in_some_posting(db, kws.subrange(0, i as int), x),
                decreases kws.len() - i,
            {
                let list = db.posting_list(self.keywords[i]);
                proof {
                    assert(strictly_sorted(db.posting(kws[i as int])));
                }
                acc = merge_into(acc, list);
                proof {
                    assert forall|x: SentenceId| #[trigger] acc@.contains(x) <==> in_some_posting(db, kws.subrange(0, i + 1), x) by {
                        let pre = kws.subrange(0, i as int);
                        let cur = kws.subrange(0, i + 1);
                        if in_some_posting(db, cur, x) {
                            let j = choose|j: int| 0 <= j < cur.len() && #[trigger] db.posting(cur[j]).contains(x);
                            if j < i {
                                assert(pre[j] == cur[j]);
                                assert(in_some_posting(db, pre, x));
                            }
                        }
                        if in_some_posting(db, pre, x) {
                            let j = choose|j: int| 0 <= j < pre.len() && #[trigger] db.posting(pre[j]).contains(x);
                            assert(pre[j] == cur[j]);
                        }
                        if list@.contains(x) {
                            assert(cur[i as int] == kws[i as int]);
                        }
                    }
                }
                i = i + 1;
            }
            assert(kws.subrange(0, i as int) =~= kws);
            let mut ids = SentenceIdList { ids: acc };
            ids.dedup();
            ids
        };
        let ghost merged = ids@;
        proof {
            assert forall|x: SentenceId| #[trigger] merged.contains(x) implies is_valid_id(x) by {
                if merged.contains(x) {
                    let i = choose|i: int| 0 <= i < kws.len() && #[trigger] db.posting(kws[i]).contains(x);
                    let k = choose|k: int| 0 <= k < db.posting(kws[i]).len() && db.posting(kws[i])[k] == x;
                }
            }
        }
        if self.document_filter.needed() && !caller.intersect() {
            retain_accepted(&mut ids, db, &self.document_filter);
            proof {
                assert forall|id: SentenceId| is_valid_id(id) implies (#[trigger] ids@.contains(id) <==> merged.contains(id) && doc_accepted(db, &self.document_filter, id)) by {
                    if ids@.contains(id) {
                        let k = choose|k: int| 0 <= k < ids@.len() && ids@[k] == id;
                        assert(ids@[k] == merged[k]);
                    }
                    if merged.contains(id) && doc_accepted(db, &self.document_filter, id) {
                        let k = choose|k: int| 0 <= k < merged.len() && merged[k] == id;
                        assert(ids@[k] == id);
                    }
                }
            }
        }
        proof {
            assert forall|a: int, b: int| 0 <= a < b < ids@.len() && is_valid_id(#[trigger] ids@[a]) && is_valid_id(#[trigger] ids@[b]) implies id_le(ids@[a], ids@[b]) by {
                assert(ids@[a] == merged[a] && ids@[b] == merged[b]);
            }
            if caller != CallerType::Intersection {
                assert forall|a: int, b: int| 0 <= a < b < ids@.len() && is_valid_id(#[trigger] ids@[a]) && is_valid_id(#[trigger] ids@[b]) implies id_lt(ids@[a], ids@[b]) by {
                    assert(ids@[a] == merged[a] && ids@[b] == merged[b]);
                }
            }
            if caller == CallerType::Intersection {
                assert forall|i: int| 0 <= i < ids@.len() implies is_valid_id(#[trigger] ids@[i]) by {
                    assert(ids@ == merged);
                    assert(merged.contains(merged[i]));
                }
            }
        }
        ids
    }
}

/// Whatever a query matches is in some posting list, so its document
/// exists.
pub proof fn lemma_matches_known_doc<DM, SM, DF: DocumentFilter<DM>>(
    q: &DynamicQuery<DF>,
    db: &SearchEngine<DM, SM>,
    caller: CallerType,
    id: SentenceId,
)
    requires
        db.wf(),
        q.wf(),
        q.matches(db, caller, id),
    ensures
        (id.doc as int) < db.doc_meta@.len(),
    decreases q,
{
    match q {
        DynamicQuery::Phrase(p) => {
            assert(db.posting(p.phrase@[0]).contains(id));
        },
        DynamicQuery::Keywords(k) => {
            let i = choose|i: int| 0 <= i < k.keywords@.len() && #[trigger] db.posting(k.keywords@[i]).contains(id);
        },
        DynamicQuery::Intersection(c) => {
            assert(c.queries@[0].wf());
            assert(c.queries@[0].matches(db, CallerType::Intersection, id));
            assert(decreases_to!(c => c.queries));
            assert(decreases_to!(c.queries => c.queries@));
            assert(decreases_to!(c.queries@ => c.queries@[0]));
            lemma_matches_known_doc(&c.queries@[0], db, CallerType::Intersection, id);
        },
        DynamicQuery::PhraseIntersection(c) => {
            assert(db.posting(all_phrase_terms(c.queries@)[0]).contains(id));
        },
        DynamicQuery::Union(c) => {
            let i = choose|i: int| 0 <= i < c.queries@.len() && (#[trigger] c.queries@[i]).matches(db, CallerType::Union, id);
            assert(c.queries@[i].wf());
            assert(decreases_to!(c => c.queries));
            assert(decreases_to!(c.queries => c.queries@));
            assert(decreases_to!(c.queries@ => c.queries@[i]));
            lemma_matches_known_doc(&c.queries@[i], db, CallerType::Union, id);
        },
    }
}

impl<DF> DynamicQuery<DF> {
    pub open spec fn wf(&self) -> bool
        decreases self,
    {
        match self {
            DynamicQuery::Phrase(q) => q.wf(),
            DynamicQuery::Keywords(q) => q.wf(),
            DynamicQuery::Intersection(q) => q.queries@.len() > 0 && forall|i: int|
                0 <= i < q.queries@.len() ==> (#[trigger] q.queries@[i]).wf(),
            DynamicQuery::PhraseIntersection(q) => forall|i: int|
                0 <= i < q.queries@.len() ==> (#[trigger] q.queries@[i]).wf(),
            DynamicQuery::Union(q) => forall|i: int| 0 <= i < q.queries@.len() ==> (#[trigger] q.queries@[i]).wf(),
        }
    }

    /// Whether the valid id `id` is among the sentences the query finds
    /// when evaluated for `caller`.
    pub open spec fn matches<DM, SM>(&self, db: &SearchEngine<DM, SM>, caller: CallerType, id: SentenceId) -> bool where
        DF: DocumentFilter<DM>,
        decreases self,
    {
        match self {
            DynamicQuery::Phrase(q) => in_all_postings(db, q.phrase@, id) && doc_accepted(db, &q.document_filter, id),
            DynamicQuery::Keywords(q) => in_some_posting(db, q.keywords@, id) && (caller == CallerType::Intersection
                || doc_accepted(db, &q.document_filter, id)),
            DynamicQuery::Intersection(q) => (forall|i: int|
                0 <= i < q.queries@.len() ==> (#[trigger] q.queries@[i]).matches(db, CallerType::Intersection, id))
                && (q.queries@.len() > 1 ==> doc_accepted(db, &q.document_filter, id)),
            DynamicQuery::PhraseIntersection(q) => phrases_nonempty(q.queries@) && in_all_postings(db, all_phrase_terms(q.queries@), id)
                && doc_accepted(db, &q.document_filter, id),
            DynamicQuery::Union(q) => exists|i: int|
                0 <= i < q.queries@.len() && (#[trigger] q.queries@[i]).matches(db, CallerType::Union, id),
        }
    }

    /// Whether the ids found for `caller` strictly ascend.
    pub open spec fn strict_for(&self, caller: CallerType) -> bool {
        match self {
            DynamicQuery::Keywords(_) => caller != CallerType::Intersection,
            _ => true,
        }
    }

    /// The candidate sentences of the query: the valid ids of the result
    /// ascend, and are exactly those the query matches.
    pub fn find_sentence_ids<DM, SM>(&self, db: &SearchEngine<DM, SM>, caller: CallerType) -> (r: SentenceIdList) where
        DF: DocumentFilter<DM>,
        requires
            db.wf(),
            self.wf(),
        ensures
            lists_exactly(r@, |id: SentenceId| self.matches(db, caller, id), self.strict_for(caller)),
            (self is Union || (self is Keywords && caller == CallerType::Intersection)) ==> no_tombstones(r@),
        decreases self, 1int,
    {
        match self {
            DynamicQuery::Phrase(q) => q.find_sentence_ids(db, caller),
            DynamicQuery::Keywords(q) => q.find_sentence_ids(db, caller),
            DynamicQuery::Intersection(q) => q.find_sentence_ids(db, caller),
            DynamicQuery::PhraseIntersection(q) => q.find_sentence_ids(db, caller),
            DynamicQuery::Union(q) => q.find_sentence_ids(db, caller),
        }
    }
}

impl<DF> IntersectingPhraseQuery<DF> {
    pub fn find_sentence_ids<DM, SM>(&self, db: &SearchEngine<DM, SM>, caller: CallerType) -> (r: SentenceIdList) where
        DF: DocumentFilter<DM>,
        requires
            db.wf(),
        ensures
            lists_exactly(
                r@,
                |id: SentenceId| phrases_nonempty(self.queries@) && in_all_postings(db, all_phrase_terms(self.queries@), id)
                    && doc_accepted(db, &self.document_filter, id),
                true,
            ),
    {
        let mut q: usize = 0;
        while q < self.queries.len()
            invariant
                0 <= q <= self.queries@.len(),
                forall|j: int| 0 <= j < q ==> (#[trigger] self.queries@[j]).phrase@.len() > 0,
            decreases self.queries@.len() - q,
        {
            if self.queries[q].phrase.len() == 0 {
                return SentenceIdList { ids: Vec::new() };
            }
            q = q + 1;
        }
        let mut terms: Vec<u32> = Vec::new();
        let mut i: usize = 0;
        while i < self.queries.len()
            invariant
                0 <= i <= self.queries@.len(),
                terms@ == all_phrase_terms(self.queries@.subrange(0, i as int)),
            decreases self.queries@.len() - i,
        {
            let phrase = &self.queries[i].phrase;
            let mut j: usize = 0;
            let ghost start = terms@;
            while j < phrase.len()
                invariant
                    0 <= j <= phrase@.len(),
                    terms@ == start + phrase@.subrange(0, j as int),
                decreases phrase@.len() - j,
            {
                terms.push(phrase[j]);
                assert(phrase@.subrange(0, j + 1) =~= phrase@.subrange(0, j as int).push(phrase[j as int]));
                assert(terms@ =~= start + phrase@.subrange(0, j + 1));
                j = j + 1;
            }
            proof {
                assert(phrase@.subrange(0, j as int) =~= phrase@);
                let qs = self.queries@.subrange(0, i + 1);
                assert(qs.drop_last() =~= self.queries@.subrange(0, i as int));
                assert(qs.last() == self.queries@[i as int]);
            }
            i = i + 1;
        }
        assert(self.queries@.subrange(0, i as int) =~= self.queries@);
        find_all_terms(db, terms.as_slice(), &self.document_filter)
    }
}

impl<DF> IntersectingQuery<DF> {
    pub fn find_sentence_ids<DM, SM>(&self, db: &SearchEngine<DM, SM>, caller: CallerType) -> (r: SentenceIdList) where
        DF: DocumentFilter<DM>,
        requires
            db.wf(),
            DynamicQuery::Intersection(*self).wf(),
        ensures
            lists_exactly(
                r@,
                |id: SentenceId| DynamicQuery::Intersection(*self).matches(db, caller, id),
                true,
            ),
        decreases DynamicQuery::Intersection(*self), 0int,
    {
        let ghost whole = DynamicQuery::Intersection(*self);
        let n = self.queries.len();
        let mut sets: Vec<Vec<SentenceId>> = Vec::new();
        let mut i: usize = 0;
        while i < n
            invariant
                db.wf(),
                whole == DynamicQuery::Intersection(*self),
                whole.wf(),
                n == self.queries@.len(),
                0 <= i <= n,
                sets@.len() == i,
                forall|k: int| 0 <= k < i ==> sorted(#[trigger] sets@[k]@),
                forall|k: int, x: SentenceId| 0 <= k < i ==> (#[trigger] sets@[k]@.contains(x) <==> is_valid_id(x)
                    && self.queries@[k].matches(db, CallerType::Intersection, x)),
            decreases n - i,
        {
            proof {
                assert(self.queries@[i as int].wf());
                assert(decreases_to!(self.queries => self.queries@));
                assert(decreases_to!(self.queries@ => self.queries@[i as int]));
                assert(decreases_to!(whole => self.queries@[i as int]));
            }
            let found = self.queries[i].find_sentence_ids(db, CallerType::Intersection);
            let ghost fv = found@;
            let list = found.into_valid();
            sets.push(list);
            i = i + 1;
        }
        let mut m: usize = 0;
        let mut k: usize = 1;
        while k < n
            invariant
                1 <= k <= n,
                m < n,
                sets@.len() == n,
            decreases n - k,
        {
            if sets[k].len() < sets[m].len() {
                m = k;
            }
            k = k + 1;
        }
        let ghost seed = sets@[m as int]@;
        let mut ids = SentenceIdList::from_slice(sets[m].as_slice());
        ids.dedup();
        let ghost deduped = ids@;
        let mut i: usize = 0;
        while i < n
            invariant
                db.wf(),
                whole == DynamicQuery::Intersection(*self),
                n == self.queries@.len(),
                sets@.len() == n,
                m < n,
                seed == sets@[m as int]@,
                forall|k: int| 0 <= k < n ==> sorted(#[trigger] sets@[k]@),
                forall|x: SentenceId| deduped.contains(x) <==> seed.contains(x),
                strictly_sorted(deduped),
                0 <= i <= n,
                ids@.len() == deduped.len(),
                forall|q: int| 0 <= q < deduped.len() ==> #[trigger] ids@[q] == if (forall|j: int| 0 <= j < i ==> #[trigger] sets@[j]@.contains(deduped[q])) {
                    deduped[q]
                } else {
                    zero_id()
                },
            decreases n - i,
        {
            if i != m {
                retain_members(&mut ids, sets[i].as_slice());
            }
            proof {
                assert forall|q: int| 0 <= q < deduped.len() implies #[trigger] ids@[q] == if (forall|j: int| 0 <= j < i + 1 ==> #[trigger] sets@[j]@.contains(deduped[q])) {
                    deduped[q]
                } else {
                    zero_id()
                } by {
                    assert(deduped.contains(deduped[q]));
                    assert(seed.contains(deduped[q]));
                    if forall|j: int| 0 <= j < i + 1 ==> #[trigger] sets@[j]@.contains(deduped[q]) {
                        assert(forall|j: int| 0 <= j < i ==> #[trigger] sets@[j]@.contains(deduped[q]));
                    } else {
                        let j = choose|j: int| 0 <= j < i + 1 && !sets@[j]@.contains(deduped[q]);
                        if j < i {
                            assert(!(forall|j: int| 0 <= j < i ==> #[trigger] sets@[j]@.contains(deduped[q])));
                        }
                    }
                }
            }
            i = i + 1;
        }
        let ghost after = ids@;
        let filtered = n > 1 && self.document_filter.needed();
        if filtered {
            retain_accepted(&mut ids, db, &self.document_filter);
        }
        proof {
            if !filtered {
                assert(ids@ == after);
            }
            assert forall|q: int| 0 <= q < ids@.len() implies #[trigger] ids@[q] == after[q] || ids@[q] == zero_id() by {
            }
            assert forall|a: int, b: int| 0 <= a < b < ids@.len() && is_valid_id(#[trigger] ids@[a]) && is_valid_id(#[trigger] ids@[b]) implies id_lt(ids@[a], ids@[b]) by {
                assert(after[a] == ids@[a] || ids@[a] == zero_id());
                assert(ids@[a] == deduped[a] && ids@[b] == deduped[b]);
            }
            assert forall|a: int, b: int| 0 <= a < b < ids@.len() && is_valid_id(#[trigger] ids@[a]) && is_valid_id(#[trigger] ids@[b]) implies id_le(ids@[a], ids@[b]) by {
                assert(ids@[a] == deduped[a] && ids@[b] == deduped[b]);
            }
            assert(whole matches DynamicQuery::Intersection(u) && u == *self);
            assert forall|id: SentenceId| is_valid_id(id) implies (#[trigger] ids@.contains(id) <==> whole.matches(db, caller, id)) by {
                if ids@.contains(id) {
                    let q = choose|q: int| 0 <= q < ids@.len() && ids@[q] == id;
                    assert(ids@[q] == after[q]);
                    assert(after[q] == deduped[q]);
                    assert(forall|j: int| 0 <= j < n ==> #[trigger] sets@[j]@.contains(id));
                    assert forall|j: int| 0 <= j < self.queries@.len() implies (#[trigger] self.queries@[j]).matches(db, CallerType::Intersection, id) by {
                        assert(sets@[j]@.contains(id));
                    }
                    if n > 1 {
                        if !filtered {
                            assert(self.queries@[0].matches(db, CallerType::Intersection, id));
                            lemma_matches_known_doc(&self.queries@[0], db, CallerType::Intersection, id);
                        }
                        assert(doc_accepted(db, &self.document_filter, id));
                    }
                }
                if whole.matches(db, caller, id) {
                    assert forall|j: int| 0 <= j < n implies #[trigger] sets@[j]@.contains(id) by {
                        assert(self.queries@[j].matches(db, CallerType::Intersection, id));
                    }
                    assert(seed.contains(id));
                    assert(deduped.contains(id));
                    let q = choose|q: int| 0 <= q < deduped.len() && deduped[q] == id;
                    assert(after[q] == id);
                    if filtered {
                        assert(doc_accepted(db, &self.document_filter, id));
                    }
                    assert(ids@[q] == id);
                }
            }
        }
        ids
    }
}

/// Some of the first `n` queries matches `id` as a union member.
pub open spec fn union_prefix_matches<DM, SM, DF: DocumentFilter<DM>>(qs: Seq<DynamicQuery<DF>>, n: int, db: &SearchEngine<DM, SM>, id: SentenceId) -> bool {
    exists|k: int| 0 <= k < n && (#[trigger] qs[k]).matches(db, CallerType::Union, id)
}

impl<DF> UnionQuery<DF> {
    pub fn find_sentence_ids<DM, SM>(&self, db: &SearchEngine<DM, SM>, caller: CallerType) -> (r: SentenceIdList) where
        DF: DocumentFilter<DM>,
        requires
            db.wf(),
            DynamicQuery::Union(*self).wf(),
        ensures
            lists_exactly(r@, |id: SentenceId| DynamicQuery::Union(*self).matches(db, caller, id), true),
            no_tombstones(r@),
        decreases DynamicQuery::Union(*self), 0int,
    {
        let ghost whole = DynamicQuery::Union(*self);
        proof {
            assert(whole matches DynamicQuery::Union(u) && u == *self);
        }
        let mut acc: Vec<SentenceId> = Vec::new();
        let mut i: usize = 0;
        while i < self.queries.len()
            invariant
                db.wf(),
                whole == DynamicQuery::Union(*self),
                whole.wf(),
                forall|j: int| 0 <= j < self.queries@.len() ==> (#[trigger] self.queries@[j]).wf(),
                0 <= i <= self.queries@.len(),
                sorted(acc@),
                forall|x: SentenceId| #[trigger] acc@.contains(x) <==> is_valid_id(x) && union_prefix_matches(self.queries@, i as int, db, x),
            decreases self.queries@.len() - i,
        {
            proof {
                assert(self.queries@[i as int].wf());
                assert(whole->Union_0 == *self);
                assert(decreases_to!(whole => whole->Union_0));
                assert(decreases_to!(whole->Union_0 => whole->Union_0.queries));
                assert(decreases_to!(whole->Union_0.queries => whole->Union_0.queries@));
                assert(decreases_to!(whole->Union_0.queries@ => whole->Union_0.queries@[i as int]));
            }
            let found = self.queries[i].find_sentence_ids(db, CallerType::Union);
            let list = found.into_valid();
            acc = merge_into(acc, list.as_slice());
            proof {
                assert forall|x: SentenceId| #[trigger] acc@.contains(x) <==> is_valid_id(x) && union_prefix_matches(self.queries@, i + 1, db, x) by {
                    if is_valid_id(x) && exists|k: int| 0 <= k < i + 1 && (#[trigger] self.queries@[k]).matches(db, CallerType::Union, x) {
                        let k = choose|k: int| 0 <= k < i + 1 && (#[trigger] self.queries@[k]).matches(db, CallerType::Union, x);
                        if k < i {
                            assert(exists|k: int| 0 <= k < i && (#[trigger] self.queries@[k]).matches(db, CallerType::Union, x));
                        } else {
                            assert(list@.contains(x));
                        }
                    }
                }
            }
            i = i + 1;
        }
        let mut ids = SentenceIdList { ids: acc };
        let ghost acc_view = ids@;
        ids.dedup();
        proof {
            assert forall|i: int| 0 <= i < ids@.len() implies is_valid_id(#[trigger] ids@[i]) by {
                assert(ids@.contains(ids@[i]));
                assert(acc_view.contains(ids@[i]));
            }
            assert forall|a: int, b: int| 0 <= a < b < ids@.len() && is_valid_id(#[trigger] ids@[a]) && is_valid_id(#[trigger] ids@[b]) implies id_le(ids@[a], ids@[b]) by {
                assert(id_lt(ids@[a], ids@[b]));
            }
        }
        ids
    }
}

/// Appends `src` to `dst`.
fn append_ranges(dst: &mut Vec<SentenceRange>, src: &Vec<SentenceRange>)
    ensures
        final(dst)@ == old(dst)@ + src@,
{
    let mut i: usize = 0;
    let ghost start = dst@;
    while i < src.len()
        invariant
            0 <= i <= src@.len(),
            dst@ == start + src@.subrange(0, i as int),
        decreases src@.len() - i,
    {
        dst.push(src[i]);
        assert(src@.subrange(0, i + 1) =~= src@.subrange(0, i as int).push(src@[i as int]));
        assert(dst@ =~= start + src@.subrange(0, i + 1));
        i = i + 1;
    }
    assert(src@.subrange(0, i as int) =~= src@);
}

proof fn lemma_concat_within(a: Seq<SentenceRange>, b: Seq<SentenceRange>, len: nat)
    requires
        ranges_within(a, len),
        ranges_within(b, len),
    ensures
        ranges_within(a + b, len),
{
    assert forall|i: int| 0 <= i < (a + b).len() implies (#[trigger] (a + b)[i]).start <= (a + b)[i].end && (a + b)[i].end <= len by {
        if i >= a.len() {
            assert((a + b)[i] == b[i - a.len()]);
        }
    }
}

/// What `filter_map` promises of every query: the result is kept exactly
/// when it got highlights, and the highlights lie inside the text.
pub open spec fn filter_map_post<SM>(old_r: SearchResult<SM>, new_r: SearchResult<SM>, kept: bool, keeps: bool) -> bool {
    &&& new_r.id == old_r.id
    &&& new_r.sentence == old_r.sentence
    &&& kept == keeps
    &&& kept == (new_r.highlighted_parts@.len() > 0)
    &&& ranges_within(new_r.highlighted_parts@, old_r.sentence.text_len() as nat)
}

impl<DF> PhraseQuery<DF> {
    /// Keeps the sentence iff the phrase occurs in it; the highlights are
    /// its occurrences.
    pub fn filter_map<SM>(&self, result: &mut SearchResult<SM>) -> (r: bool)
        requires
            self.wf(),
            old(result).sentence.wf(),
        ensures
            filter_map_post(*old(result), *final(result), r, phrase_ranges(self.phrase@, old(result).sentence).len() > 0),
            final(result).highlighted_parts@ == phrase_ranges(self.phrase@, old(result).sentence),
    {
        proof {
            lemma_phrase_ranges_within(self.phrase@, result.sentence);
        }
        result.highlighted_parts = self.highlighter.highlight(result.sentence);
        result.highlighted_parts.len() > 0
    }
}

impl<DF> KeywordsQuery<DF> {
    /// Keeps the sentence iff some keyword occurs in it; the highlights are
    /// the keyword occurrences, ascending by start.
    pub fn filter_map<SM>(&self, result: &mut SearchResult<SM>) -> (r: bool)
        requires
            self.wf(),
            old(result).sentence.wf(),
        ensures
            filter_map_post(*old(result), *final(result), r, keyword_ranges(self.keywords@, old(result).sentence).len() > 0),
            final(result).highlighted_parts@.to_multiset() == keyword_ranges(self.keywords@, old(result).sentence).to_multiset(),
            crate::highlight::sorted_by_start(final(result).highlighted_parts@),
    {
        let _n = result.sentence.terms.len();
        proof {
            lemma_keyword_ranges_within(self.keywords@, result.sentence);
        }
        let parts = self.highlighter.highlight(result.sentence);
        proof {
            broadcast use vstd::seq_lib::group_to_multiset_ensures;
            assert(parts@.to_multiset().len() == parts@.len());
            assert(keyword_ranges(self.keywords@, result.sentence).to_multiset().len() == keyword_ranges(self.keywords@, result.sentence).len());
            crate::highlight::lemma_perm_within_pub(keyword_ranges(self.keywords@, result.sentence), parts@, result.sentence.text_len() as nat);
        }
        result.highlighted_parts = parts;
        result.highlighted_parts.len() > 0
    }
}

impl<DF> DynamicQuery<DF> {
    /// Whether `filter_map` keeps a result on this sentence.
    pub open spec fn keeps<SM>(&self, s: &Sentence<SM>) -> bool
        decreases self,
    {
        match self {
            DynamicQuery::Phrase(q) => phrase_ranges(q.phrase@, s).len() > 0,
            DynamicQuery::Keywords(q) => keyword_ranges(q.keywords@, s).len() > 0,
            DynamicQuery::Intersection(q) => forall|i: int| 0 <= i < q.queries@.len() ==> (#[trigger] q.queries@[i]).keeps(s),
            DynamicQuery::PhraseIntersection(q) => q.queries@.len() > 0 && forall|i: int|
                0 <= i < q.queries@.len() ==> phrase_ranges((#[trigger] q.queries@[i]).phrase@, s).len() > 0,
            DynamicQuery::Union(q) => exists|i: int| 0 <= i < q.queries@.len() && (#[trigger] q.queries@[i]).keeps(s),
        }
    }

    /// The highlights `filter_map` gives on sentence `s`: a phrase's
    /// occurrences; the keyword occurrences sorted by start; for the other
    /// queries, once kept, the collapse of their parts' highlights (one list
    /// per part, each as its part gives it) concatenated and sorted by start.
    /// No highlights when the sentence is not kept.
    pub open spec fn highlights_ok<SM>(&self, s: &Sentence<SM>, parts: Seq<SentenceRange>) -> bool
        decreases self,
    {
        match self {
            DynamicQuery::Phrase(q) => parts == phrase_ranges(q.phrase@, s),
            DynamicQuery::Keywords(q) => parts.to_multiset() == keyword_ranges(q.keywords@, s).to_multiset()
                && sorted_by_start(parts),
            DynamicQuery::Intersection(q) => if self.keeps(s) {
                exists|hs: Seq<Seq<SentenceRange>>| #![trigger concat_parts(hs)]
                    hs.len() == q.queries@.len()
                    && (forall|i: int| 0 <= i < q.queries@.len() ==> (#[trigger] q.queries@[i]).highlights_ok(s, hs[i]))
                    && collapsed_from(parts, concat_parts(hs))
            } else {
                parts.len() == 0
            },
            DynamicQuery::PhraseIntersection(q) => if self.keeps(s) {
                collapsed_from(parts, all_phrase_ranges(q.queries@, s))
            } else {
                parts.len() == 0
            },
            DynamicQuery::Union(q) => if self.keeps(s) {
                exists|hs: Seq<Seq<SentenceRange>>| #![trigger concat_parts(hs)]
                    hs.len() == q.queries@.len()
                    && (forall|i: int| 0 <= i < q.queries@.len() ==> (#[trigger] q.queries@[i]).highlights_ok(s, hs[i]))
                    && collapsed_from(parts, concat_parts(hs))
            } else {
                parts.len() == 0
            },
        }
    }

    /// Checks a candidate sentence and computes its highlights; returns
    /// whether the result is kept.
    pub fn filter_map<SM>(&self, result: &mut SearchResult<SM>) -> (r: bool)
        requires
            self.wf(),
            old(result).sentence.wf(),
        ensures
            filter_map_post(*old(result), *final(result), r, self.keeps(old(result).sentence)),
            self.highlights_ok(old(result).sentence, final(result).highlighted_parts@),
        decreases self, 1int,
    {
        match self {
            DynamicQuery::Phrase(q) => q.filter_map(result),
            DynamicQuery::Keywords(q) => q.filter_map(result),
            DynamicQuery::Intersection(q) => q.filter_map(result),
            DynamicQuery::PhraseIntersection(q) => q.filter_map(result),
            DynamicQuery::Union(q) => q.filter_map(result),
        }
    }
}

impl<DF> IntersectingQuery<DF> {
    /// Keeps the sentence iff every sub-query keeps it; the highlights of
    /// all of them are sorted and collapsed.
    pub fn filter_map<SM>(&self, result: &mut SearchResult<SM>) -> (r: bool)
        requires
            DynamicQuery::Intersection(*self).wf(),
            old(result).sentence.wf(),
        ensures
            filter_map_post(*old(result), *final(result), r, DynamicQuery::Intersection(*self).keeps(old(result).sentence)),
            DynamicQuery::Intersection(*self).highlights_ok(old(result).sentence, final(result).highlighted_parts@),
        decreases DynamicQuery::Intersection(*self), 0int,
    {
        let ghost whole = DynamicQuery::Intersection(*self);
        let ghost len = result.sentence.text_len() as nat;
        proof {
            assert(whole matches DynamicQuery::Intersection(u) && u == *self);
        }
        let mut highlights: Vec<SentenceRange> = Vec::new();
        let mut i: usize = 0;
        let ghost mut hs: Seq<Seq<SentenceRange>> = Seq::empty();
        while i < self.queries.len()
            invariant
                whole == DynamicQuery::Intersection(*self),
                forall|j: int| 0 <= j < self.queries@.len() ==> (#[trigger] self.queries@[j]).wf(),
                self.queries@.len() > 0,
                result.sentence.wf(),
                result.id == old(result).id,
                result.sentence == old(result).sentence,
                len == result.sentence.text_len() as nat,
                0 <= i <= self.queries@.len(),
                ranges_within(highlights@, len),
                i > 0 ==> highlights@.len() > 0,
                forall|j: int| 0 <= j < i ==> (#[trigger] self.queries@[j]).keeps(result.sentence),
                hs.len() == i,
                highlights@ == concat_parts(hs),
                forall|j: int| 0 <= j < i ==> (#[trigger] self.queries@[j]).highlights_ok(result.sentence, hs[j]),
            decreases self.queries@.len() - i,
        {
            proof {
                assert(decreases_to!(whole => whole->Intersection_0));
                assert(decreases_to!(whole->Intersection_0 => whole->Intersection_0.queries));
                assert(decreases_to!(whole->Intersection_0.queries => whole->Intersection_0.queries@));
                assert(decreases_to!(whole->Intersection_0.queries@ => whole->Intersection_0.queries@[i as int]));
            }
            if !self.queries[i].filter_map(result) {
                result.highlighted_parts = Vec::new();
                return false;
            }
            let ghost before = highlights@;
            append_ranges(&mut highlights, &result.highlighted_parts);
            proof {
                lemma_concat_within(before, result.highlighted_parts@, len);
                let old_hs = hs;
                hs = hs.push(result.highlighted_parts@);
                assert(hs.drop_last() =~= old_hs);
                assert forall|j: int| 0 <= j < i + 1 implies (#[trigger] self.queries@[j]).highlights_ok(result.sentence, hs[j]) by {
                    if j < i {
                        assert(hs[j] == old_hs[j]);
                    }
                }
            }
            i = i + 1;
        }
        let ghost all = highlights@;
        result.highlighted_parts = sort_and_collapse(highlights, Ghost(len));
        proof {
            assert(collapsed_from(result.highlighted_parts@, concat_parts(hs)));
            assert(whole.keeps(result.sentence));
        }
        true
    }
}

/// The lists one after the other.
pub open spec fn concat_parts(hs: Seq<Seq<SentenceRange>>) -> Seq<SentenceRange>
    decreases hs.len(),
{
    if hs.len() == 0 {
        Seq::empty()
    } else {
        concat_parts(hs.drop_last()) + hs.last()
    }
}

/// The highlights of each phrase, one phrase after the other.
pub open spec fn all_phrase_ranges<DF, SM>(qs: Seq<PhraseQuery<DF>>, s: &Sentence<SM>) -> Seq<SentenceRange>
    decreases qs.len(),
{
    if qs.len() == 0 {
        Seq::empty()
    } else {
        all_phrase_ranges(qs.drop_last(), s) + phrase_ranges(qs.last().phrase@, s)
    }
}

impl<DF> IntersectingPhraseQuery<DF> {
    /// Keeps the sentence iff every phrase occurs in it (and there is at
    /// least one); the highlights of all of them are sorted and collapsed.
    pub fn filter_map<SM>(&self, result: &mut SearchResult<SM>) -> (r: bool)
        requires
            forall|j: int| 0 <= j < self.queries@.len() ==> (#[trigger] self.queries@[j]).wf(),
            old(result).sentence.wf(),
        ensures
            filter_map_post(*old(result), *final(result), r, DynamicQuery::PhraseIntersection(*self).keeps(old(result).sentence)),
            r ==> collapsed_from(final(result).highlighted_parts@, all_phrase_ranges(self.queries@, old(result).sentence)),
    {
        let ghost len = result.sentence.text_len() as nat;
        let mut highlights: Vec<SentenceRange> = Vec::new();
        let mut i: usize = 0;
        while i < self.queries.len()
            invariant
                forall|j: int| 0 <= j < self.queries@.len() ==> (#[trigger] self.queries@[j]).wf(),
                result.sentence.wf(),
                result.id == old(result).id,
                result.sentence == old(result).sentence,
                len == result.sentence.text_len() as nat,
                0 <= i <= self.queries@.len(),
                ranges_within(highlights@, len),
                i > 0 <==> highlights@.len() > 0,
                forall|j: int| 0 <= j < i ==> phrase_ranges((#[trigger] self.queries@[j]).phrase@, result.sentence).len() > 0,
                highlights@ == all_phrase_ranges(self.queries@.subrange(0, i as int), result.sentence),
            decreases self.queries@.len() - i,
        {
            proof {
                let qs = self.queries@.subrange(0, i + 1);
                assert(qs.drop_last() =~= self.queries@.subrange(0, i as int));
                assert(qs.last() == self.queries@[i as int]);
            }
            if !self.queries[i].filter_map(result) {
                result.highlighted_parts = Vec::new();
                return false;
            }
            let ghost before = highlights@;
            append_ranges(&mut highlights, &result.highlighted_parts);
            proof {
                lemma_concat_within(before, result.highlighted_parts@, len);
            }
            i = i + 1;
        }
        proof {
            let whole = DynamicQuery::PhraseIntersection(*self);
            assert(whole matches DynamicQuery::PhraseIntersection(u) && u == *self);
            assert(self.queries@.subrange(0, i as int) =~= self.queries@);
        }
        if highlights.len() == 0 {
            result.highlighted_parts = Vec::new();
            return false;
        }
        result.highlighted_parts = sort_and_collapse(highlights, Ghost(len));
        true
    }
}

impl<DF> UnionQuery<DF> {
    /// Keeps the sentence iff some sub-query keeps it; the highlights of all
    /// of them are sorted and collapsed.
    pub fn filter_map<SM>(&self, result: &mut SearchResult<SM>) -> (r: bool)
        requires
            DynamicQuery::Union(*self).wf(),
            old(result).sentence.wf(),
        ensures
            filter_map_post(*old(result), *final(result), r, DynamicQuery::Union(*self).keeps(old(result).sentence)),
            DynamicQuery::Union(*self).highlights_ok(old(result).sentence, final(result).highlighted_parts@),
        decreases DynamicQuery::Union(*self), 0int,
    {
        let ghost whole = DynamicQuery::Union(*self);
        let ghost len = result.sentence.text_len() as nat;
        proof {
            assert(whole matches DynamicQuery::Union(u) && u == *self);
        }
        let mut highlights: Vec<SentenceRange> = Vec::new();
        let mut i: usize = 0;
        let ghost mut hs: Seq<Seq<SentenceRange>> = Seq::empty();
        while i < self.queries.len()
            invariant
                whole == DynamicQuery::Union(*self),
                forall|j: int| 0 <= j < self.queries@.len() ==> (#[trigger] self.queries@[j]).wf(),
                result.sentence.wf(),
                result.id == old(result).id,
                result.sentence == old(result).sentence,
                len == result.sentence.text_len() as nat,
                0 <= i <= self.queries@.len(),
                ranges_within(highlights@, len),
                highlights@.len() > 0 <==> exists|j: int| 0 <= j < i && (#[trigger] self.queries@[j]).keeps(result.sentence),
                hs.len() == i,
                highlights@ == concat_parts(hs),
                forall|j: int| 0 <= j < i ==> (#[trigger] self.queries@[j]).highlights_ok(result.sentence, hs[j]),
            decreases self.queries@.len() - i,
        {
            proof {
                assert(decreases_to!(whole => whole->Union_0));
                assert(decreases_to!(whole->Union_0 => whole->Union_0.queries));
                assert(decreases_to!(whole->Union_0.queries => whole->Union_0.queries@));
                assert(decreases_to!(whole->Union_0.queries@ => whole->Union_0.queries@[i as int]));
            }
            let kept = self.queries[i].filter_map(result);
            let ghost before = highlights@;
            append_ranges(&mut highlights, &result.highlighted_parts);
            proof {
                lemma_concat_within(before, result.highlighted_parts@, len);
                let old_hs = hs;
                hs = hs.push(result.highlighted_parts@);
                assert(hs.drop_last() =~= old_hs);
                assert forall|j: int| 0 <= j < i + 1 implies (#[trigger] self.queries@[j]).highlights_ok(result.sentence, hs[j]) by {
                    if j < i {
                        assert(hs[j] == old_hs[j]);
                    }
                }
                if kept {
                    assert(exists|j: int| 0 <= j < i + 1 && (#[trigger] self.queries@[j]).keeps(result.sentence));
                }
                if exists|j: int| 0 <= j < i + 1 && (#[trigger] self.queries@[j]).keeps(result.sentence) {
                    let j = choose|j: int| 0 <= j < i + 1 && (#[trigger] self.queries@[j]).keeps(result.sentence);
                    if j < i {
                        assert(before.len() > 0);
                    }
                }
            }
            i = i + 1;
        }
        if highlights.len() == 0 {
            result.highlighted_parts = Vec::new();
            return false;
        }
        result.highlighted_parts = sort_and_collapse(highlights, Ghost(len));
        proof {
            assert(collapsed_from(result.highlighted_parts@, concat_parts(hs)));
        }
        true
    }
}

impl<DF> DynamicQuery<DF> {
    /// What the query matches when every part is evaluated on its own,
    /// without the work a parent would do again being left out: keyword
    /// queries always apply their filter.
    pub open spec fn matches_plain<DM, SM>(&self, db: &SearchEngine<DM, SM>, id: SentenceId) -> bool where
        DF: DocumentFilter<DM>,
        decreases self,
    {
        match self {
            DynamicQuery::Phrase(q) => in_all_postings(db, q.phrase@, id) && doc_accepted(db, &q.document_filter, id),
            DynamicQuery::Keywords(q) => in_some_posting(db, q.keywords@, id) && doc_accepted(db, &q.document_filter, id),
            DynamicQuery::Intersection(q) => (forall|i: int|
                0 <= i < q.queries@.len() ==> (#[trigger] q.queries@[i]).matches_plain(db, id))
                && (q.queries@.len() > 1 ==> doc_accepted(db, &q.document_filter, id)),
            DynamicQuery::PhraseIntersection(q) => phrases_nonempty(q.queries@) && in_all_postings(db, all_phrase_terms(q.queries@), id)
                && doc_accepted(db, &q.document_filter, id),
            DynamicQuery::Union(q) => exists|i: int|
                0 <= i < q.queries@.len() && (#[trigger] q.queries@[i]).matches_plain(db, id),
        }
    }

    /// Every filter in the tree is `df`, and every intersection has at least
    /// two parts (as the query parser builds them).
    pub open spec fn shares_filter(&self, df: DF) -> bool
        decreases self,
    {
        match self {
            DynamicQuery::Phrase(q) => q.document_filter == df,
            DynamicQuery::Keywords(q) => q.document_filter == df,
            DynamicQuery::Intersection(q) => q.document_filter == df && q.queries@.len() > 1 && forall|i: int|
                0 <= i < q.queries@.len() ==> (#[trigger] q.queries@[i]).shares_filter(df),
            DynamicQuery::PhraseIntersection(q) => q.document_filter == df,
            DynamicQuery::Union(q) => forall|i: int| 0 <= i < q.queries@.len() ==> (#[trigger] q.queries@[i]).shares_filter(df),
        }
    }
}

/// Leaving out work for an intersecting parent changes no result: for a
/// query tree with one shared filter, what a query matches for any caller
/// but an intersection is what it matches with every part evaluated in
/// full; for an intersecting caller, it is the same among the documents the
/// filter accepts.
pub proof fn lemma_caller_equivalence<DM, SM, DF: DocumentFilter<DM>>(
    q: &DynamicQuery<DF>,
    df: DF,
    db: &SearchEngine<DM, SM>,
    caller: CallerType,
    id: SentenceId,
)
    requires
        q.shares_filter(df),
    ensures
        caller != CallerType::Intersection ==> (q.matches(db, caller, id) <==> q.matches_plain(db, id)),
        (q.matches(db, caller, id) && doc_accepted(db, &df, id)) <==> (q.matches_plain(db, id) && doc_accepted(db, &df, id)),
    decreases q,
{
    match q {
        DynamicQuery::Intersection(c) => {
            assert forall|i: int| 0 <= i < c.queries@.len() implies
                ((#[trigger] c.queries@[i]).matches(db, CallerType::Intersection, id) && doc_accepted(db, &df, id))
                    <==> (c.queries@[i].matches_plain(db, id) && doc_accepted(db, &df, id)) by {
                assert(c.queries@[i].shares_filter(df));
                assert(decreases_to!(c => c.queries));
                assert(decreases_to!(c.queries => c.queries@));
                assert(decreases_to!(c.queries@ => c.queries@[i]));
                lemma_caller_equivalence(&c.queries@[i], df, db, CallerType::Intersection, id);
            }
        },
        DynamicQuery::Union(c) => {
            assert forall|i: int| 0 <= i < c.queries@.len() implies
                ((#[trigger] c.queries@[i]).matches(db, CallerType::Union, id) <==> c.queries@[i].matches_plain(db, id)) by {
                assert(c.queries@[i].shares_filter(df));
                assert(decreases_to!(c => c.queries));
                assert(decreases_to!(c.queries => c.queries@));
                assert(decreases_to!(c.queries@ => c.queries@[i]));
                lemma_caller_equivalence(&c.queries@[i], df, db, CallerType::Union, id);
            }
            if q.matches(db, caller, id) {
                let i = choose|i: int| 0 <= i < c.queries@.len() && (#[trigger] c.queries@[i]).matches(db, CallerType::Union, id);
                assert(c.queries@[i].matches_plain(db, id));
            }
            if q.matches_plain(db, id) {
                let i = choose|i: int| 0 <= i < c.queries@.len() && (#[trigger] c.queries@[i]).matches_plain(db, id);
                assert(c.queries@[i].matches(db, CallerType::Union, id));
            }
        },
        _ => {},
    }
}

/// A union finds exactly what its parts find (each evaluated as a union
/// member): the union of their results, tombstones left out.
pub proof fn lemma_union_ids<DM, SM, DF: DocumentFilter<DM>>(
    u: UnionQuery<DF>,
    db: &SearchEngine<DM, SM>,
    caller: CallerType,
    id: SentenceId,
)
    ensures
        DynamicQuery::Union(u).matches(db, caller, id) <==> exists|i: int|
            0 <= i < u.queries@.len() && (#[trigger] u.queries@[i]).matches(db, CallerType::Union, id),
{
    let whole = DynamicQuery::Union(u);
    assert(whole matches DynamicQuery::Union(v) && v == u);
}

/// An intersection finds only what each of its parts finds (each evaluated
/// as an intersection member); with a filter that accepts every document,
/// exactly that.
pub proof fn lemma_intersection_ids<DM, SM, DF: DocumentFilter<DM>>(
    iq: IntersectingQuery<DF>,
    db: &SearchEngine<DM, SM>,
    caller: CallerType,
    id: SentenceId,
)
    requires
        db.wf(),
        DynamicQuery::Intersection(iq).wf(),
    ensures
        DynamicQuery::Intersection(iq).matches(db, caller, id) ==> forall|i: int|
            0 <= i < iq.queries@.len() ==> (#[trigger] iq.queries@[i]).matches(db, CallerType::Intersection, id),
        (forall|m: DM| iq.document_filter.accepts(m)) ==> (DynamicQuery::Intersection(iq).matches(db, caller, id)
            <== forall|i: int| 0 <= i < iq.queries@.len() ==> (#[trigger] iq.queries@[i]).matches(db, CallerType::Intersection, id)),
{
    let whole = DynamicQuery::Intersection(iq);
    assert(whole matches DynamicQuery::Intersection(u) && u == iq);
    if (forall|m: DM| iq.document_filter.accepts(m)) && forall|i: int|
        0 <= i < iq.queries@.len() ==> (#[trigger] iq.queries@[i]).matches(db, CallerType::Intersection, id) {
        assert(iq.queries@[0].wf());
        lemma_matches_known_doc(&iq.queries@[0], db, CallerType::Intersection, id);
        assert(doc_accepted(db, &iq.document_filter, id));
    }
}

impl<DM, SM> SearchEngine<DM, SM> {
    /// `res` is a result the query owes: a valid id it matches, the
    /// sentence stored under it, kept, with highlights inside its text.
    pub open spec fn is_result_of<DF: DocumentFilter<DM>>(&self, query: &DynamicQuery<DF>, res: SearchResult<SM>) -> bool {
        &&& is_valid_id(res.id)
        &&& query.matches(self, CallerType::TopLevel, res.id)
        &&& self.sentences@.contains_key(sentence_key(res.id))
        &&& *res.sentence == self.sentences@[sentence_key(res.id)]
        &&& query.keeps(res.sentence)
        &&& query.highlights_ok(res.sentence, res.highlighted_parts@)
        &&& res.highlighted_parts@.len() > 0
        &&& ranges_within(res.highlighted_parts@, res.sentence.text_len() as nat)
    }

    /// `id` is a valid id the query matches at the top level.
    #[verifier::opaque]
    pub open spec fn found_by<DF: DocumentFilter<DM>>(&self, query: &DynamicQuery<DF>, id: SentenceId) -> bool {
        is_valid_id(id) && query.matches(self, CallerType::TopLevel, id)
    }

    /// The sentence of `id` is stored and the query keeps it.
    #[verifier::opaque]
    pub open spec fn kept_stored<DF: DocumentFilter<DM>>(&self, query: &DynamicQuery<DF>, id: SentenceId) -> bool {
        self.sentences@.contains_key(sentence_key(id)) && query.keeps(&self.sentences@[sentence_key(id)])
    }

    /// `is_result_of`, folded.
    #[verifier::opaque]
    pub open spec fn owed<DF: DocumentFilter<DM>>(&self, query: &DynamicQuery<DF>, res: SearchResult<SM>) -> bool {
        self.is_result_of(query, res)
    }

    /// The result for candidate `id`: its stored sentence, checked and
    /// highlighted; `None` if it is not stored or not kept.
    fn make_result<'a, DF: DocumentFilter<DM>>(&'a self, query: &DynamicQuery<DF>, id: SentenceId) -> (r: Option<SearchResult<'a, SM>>)
        requires
            self.wf(),
            query.wf(),
            self.found_by(query, id),
        ensures
            match r {
                Some(res) => res.id == id && self.owed(query, res),
                None => !self.kept_stored(query, id),
            },
    {
        proof {
            reveal(SearchEngine::found_by);
            reveal(SearchEngine::kept_stored);
            reveal(SearchEngine::owed);
        }
        match self.sentence(id) {
            Some(sentence) => {
                let mut result = SearchResult { id, highlighted_parts: Vec::new(), sentence };
                if query.filter_map(&mut result) {
                    Some(result)
                } else {
                    None
                }
            },
            None => None,
        }
    }

    /// Runs a query: its candidates in ascending id order, each looked up,
    /// checked and highlighted; the kept ones are returned.
    pub fn query<'a, DF: DocumentFilter<DM>>(&'a self, query: &DynamicQuery<DF>) -> (r: Vec<SearchResult<'a, SM>>)
        requires
            self.wf(),
            query.wf(),
        ensures
            forall|a: int, b: int| 0 <= a < b < r@.len() ==> id_lt((#[trigger] r@[a]).id, (#[trigger] r@[b]).id),
            forall|k: int| 0 <= k < r@.len() ==> self.is_result_of(query, #[trigger] r@[k]),
            forall|id: SentenceId| is_valid_id(id) && query.matches(self, CallerType::TopLevel, id)
                && self.sentences@.contains_key(sentence_key(id))
                && query.keeps(&self.sentences@[sentence_key(id)])
                ==> exists|k: int| 0 <= k < r@.len() && (#[trigger] r@[k]).id == id,
    {
        let found = query.find_sentence_ids(self, CallerType::TopLevel);
        let ids = found.into_valid();
        proof {
            reveal(SearchEngine::found_by);
            assert forall|x: SentenceId| #[trigger] ids@.contains(x) <==> self.found_by(query, x) by {}
        }
        let mut results: Vec<SearchResult<'a, SM>> = Vec::new();
        let mut i: usize = 0;
        while i < ids.len()
            invariant
                self.wf(),
                query.wf(),
                strictly_sorted(ids@),
                forall|x: SentenceId| #[trigger] ids@.contains(x) <==> self.found_by(query, x),
                0 <= i <= ids@.len(),
                forall|a: int, b: int| 0 <= a < b < results@.len() ==> id_lt((#[trigger] results@[a]).id, (#[trigger] results@[b]).id),
                forall|k: int| 0 <= k < results@.len() ==> exists|t: int| 0 <= t < i && ids@[t] == (#[trigger] results@[k]).id,
                forall|k: int| 0 <= k < results@.len() ==> self.owed(query, #[trigger] results@[k]),
                forall|t: int| 0 <= t < i && self.kept_stored(query, #[trigger] ids@[t])
                    ==> exists|k: int| 0 <= k < results@.len() && (#[trigger] results@[k]).id == ids@[t],
            decreases ids@.len() - i,
        {
            let id = ids[i];
            proof {
                assert(ids@.contains(id));
            }
            match self.make_result(query, id) {
                Some(result) => {
                    let ghost before = results@;
                    proof {
                        assert forall|k: int| 0 <= k < before.len() implies id_lt((#[trigger] before[k]).id, id) by {
                            let t = choose|t: int| 0 <= t < i && ids@[t] == before[k].id;
                            assert(id_lt(ids@[t], ids@[i as int]));
                        }
                    }
                    results.push(result);
                    proof {
                        assert forall|k: int| 0 <= k < results@.len() implies exists|t: int| 0 <= t < i + 1 && ids@[t] == (#[trigger] results@[k]).id by {
                            if k < before.len() {
                                assert(results@[k] == before[k]);
                                let t = choose|t: int| 0 <= t < i && ids@[t] == before[k].id;
                            } else {
                                assert(ids@[i as int] == results@[k].id);
                            }
                        }
                        assert forall|k: int| 0 <= k < results@.len() implies self.owed(query, #[trigger] results@[k]) by {
                            if k < before.len() {
                                assert(results@[k] == before[k]);
                            }
                        }
                        assert forall|t: int| 0 <= t < i + 1 && self.kept_stored(query, #[trigger] ids@[t])
                            implies exists|k: int| 0 <= k < results@.len() && (#[trigger] results@[k]).id == ids@[t] by {
                            if t < i {
                                let k = choose|k: int| 0 <= k < before.len() && (#[trigger] before[k]).id == ids@[t];
                                assert(results@[k] == before[k]);
                            } else {
                                assert(results@[before.len() as int].id == ids@[t]);
                            }
                        }
                    }
                },
                None => {
                    proof {
                        assert forall|k: int| 0 <= k < results@.len() implies exists|t: int| 0 <= t < i + 1 && ids@[t] == (#[trigger] results@[k]).id by {
                            let t = choose|t: int| 0 <= t < i && ids@[t] == results@[k].id;
                        }
                        assert forall|t: int| 0 <= t < i + 1 && self.kept_stored(query, #[trigger] ids@[t])
                            implies exists|k: int| 0 <= k < results@.len() && (#[trigger] results@[k]).id == ids@[t] by {
                            if t == i {
                                assert(false);
                            }
                        }
                    }
                },
            }
            i = i + 1;
        }
        proof {
            reveal(SearchEngine::found_by);
            reveal(SearchEngine::kept_stored);
            reveal(SearchEngine::owed);
            assert forall|k: int| 0 <= k < results@.len() implies self.is_result_of(query, #[trigger] results@[k]) by {
                assert(self.owed(query, results@[k]));
            }
            assert forall|id: SentenceId| is_valid_id(id) && query.matches(self, CallerType::TopLevel, id)
                && self.sentences@.contains_key(sentence_key(id))
                && query.keeps(&self.sentences@[sentence_key(id)])
                implies exists|k: int| 0 <= k < results@.len() && (#[trigger] results@[k]).id == id by {
                assert(self.found_by(query, id));
                assert(ids@.contains(id));
                let t = choose|t: int| 0 <= t < ids@.len() && ids@[t] == id;
                assert(self.kept_stored(query, ids@[t]));
            }
        }
        results
    }
}

} // verus!
