//! The database handle: search engine, stored documents and dictionary.
use vstd::prelude::*;
use std::collections::BTreeMap;
use crate::searcher::SearchEngine;
use crate::term_map::{FrozenTermMap, phrase_terms};
use crate::filter::DocumentFilter;
use crate::parser::{compiles_to, lex, parse_query_text, parse_tokens, phrase_is};
use crate::query::{CallerType, DynamicQuery, PhraseQuery};
use crate::searcher::{SearchResult, sentence_key};
use crate::sentence::{SentenceId, id_lt, is_valid_id};

verus! {

broadcast use vstd::std_specs::btree::group_btree_axioms, vstd::laws_cmp::group_laws_cmp;

pub struct Database<D, DM, SM> {
    pub search: SearchEngine<DM, SM>,
    pub documents: BTreeMap<u32, D>,
    pub term_map: FrozenTermMap,
}

/// A line stored by `add_document` is, once the database is built, a
/// candidate of every unfiltered phrase query whose terms all occur in it.
pub proof fn lemma_added_line_found<D, DM: crate::filter::DocumentMetadata, SM: crate::sentence::SentenceMetadata>(
    b: &crate::builder::DatabaseBuilder<D, DM, SM>,
    db: &Database<D, DM, SM>,
    doc: u32,
    lines: Seq<Seq<char>>,
    i: int,
    q: PhraseQuery<()>,
)
    requires
        crate::builder::document_stored(b, doc, lines),
        0 <= i < lines.len(),
        db.wf(),
        forall|t: u32, x: SentenceId| #[trigger] db.search.posting(t).contains(x) <==> b.postings(t).contains(x),
        q.phrase@.len() > 0,
        forall|j: int| 0 <= j < q.phrase@.len() ==> b.sentences()[sentence_key(SentenceId { doc, sentence: i as u32 })].terms@.contains(
            #[trigger] q.phrase@[j],
        ),
    ensures
        DynamicQuery::Phrase(q).matches(&db.search, CallerType::TopLevel, SentenceId { doc, sentence: i as u32 }),
{
    let id = SentenceId { doc, sentence: i as u32 };
    let key = sentence_key(id);
    assert(crate::builder::line_stored(b, id, lines[i]));
    let terms = b.sentences()[key].terms@;
    assert forall|j: int| 0 <= j < q.phrase@.len() implies #[trigger] db.search.posting(q.phrase@[j]).contains(id) by {
        assert(terms.contains(q.phrase@[j]));
        let k = choose|k: int| 0 <= k < terms.len() && terms[k] == q.phrase@[j];
        assert(b.postings(terms[k]).contains(id));
    }
    assert(db.search.posting(q.phrase@[0]).contains(id));
    let p = db.search.posting(q.phrase@[0]);
    let k = choose|k: int| 0 <= k < p.len() && p[k] == id;
    assert((p[k].doc as int) < db.search.doc_meta@.len());
}

impl<D, DM, SM> Database<D, DM, SM> {
    pub open spec fn wf(&self) -> bool {
        &&& self.search.wf()
        &&& self.term_map.wf()
    }

    /// The term ids of the words of a phrase (0 for an unknown word).
    pub fn tokenize_phrase(&self, query: &str) -> (r: Vec<u32>)
        requires
            self.wf(),
        ensures
            r@ == phrase_terms(self.term_map@, query@),
    {
        self.term_map.tokenize_phrase(query)
    }

    /// A phrase query for the words of `query`.
    pub fn phrase_query<DF: Copy>(&self, query: &str, document_filter: DF) -> (r: DynamicQuery<DF>)
        requires
            self.wf(),
        ensures
            r.wf(),
            r matches DynamicQuery::Phrase(p) && phrase_is(p, phrase_terms(self.term_map@, query@), document_filter),
    {
        let tokens = self.term_map.tokenize_phrase(query);
        DynamicQuery::Phrase(PhraseQuery::new(tokens.as_slice(), document_filter))
    }

    /// Compiles a query string; `None` when it does not lex or parse.
    pub fn parse_query<DF: Copy>(&self, query: &str, document_filter: DF, optimize: bool) -> (r: Option<DynamicQuery<DF>>)
        requires
            self.wf(),
        ensures
            match r {
                Some(q) => q.wf() && (lex(query@) matches Some(t) && (parse_tokens(t) matches Some(e)
                    && compiles_to(q, e, self.term_map@, document_filter, optimize))),
                None => lex(query@) is None || parse_tokens(lex(query@)->Some_0) is None,
            },
    {
        match parse_query_text(query) {
            Some(e) => {
                let ghost ev = e@;
                let q = e.parse(&self.term_map, document_filter, optimize);
                Some(q)
            },
            None => None,
        }
    }

    /// Runs a query; see `SearchEngine::query`.
    pub fn query<'a, DF: DocumentFilter<DM>>(&'a self, query: &DynamicQuery<DF>) -> (r: Vec<SearchResult<'a, SM>>)
        requires
            self.wf(),
            query.wf(),
        ensures
            forall|a: int, b: int| 0 <= a < b < r@.len() ==> id_lt((#[trigger] r@[a]).id, (#[trigger] r@[b]).id),
            forall|k: int| 0 <= k < r@.len() ==> self.search.is_result_of(query, #[trigger] r@[k]),
            forall|id: SentenceId| is_valid_id(id) && query.matches(&self.search, CallerType::TopLevel, id)
                && self.search.sentences@.contains_key(sentence_key(id))
                && query.keeps(&self.search.sentences@[sentence_key(id)])
                ==> exists|k: int| 0 <= k < r@.len() && (#[trigger] r@[k]).id == id,
    {
        self.search.query(query)
    }

    /// The stored payload of a document.
    pub fn get_doc(&self, doc_id: &u32) -> (r: Option<&D>)
        ensures
            match r {
                Some(d) => self.documents@.contains_key(*doc_id) && *d == self.documents@[*doc_id],
                None => !self.documents@.contains_key(*doc_id),
            },
    {
        self.documents.get(doc_id)
    }
}

} // verus!
