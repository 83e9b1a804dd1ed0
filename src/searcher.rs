//! The search engine: document metadata, stored sentences and the inverted
//! index from term id to the sorted list of sentences holding it.
use vstd::prelude::*;
use std::collections::BTreeMap;
use crate::id_list::{strictly_sorted};
use crate::sentence::{CopyableRange, Sentence, SentenceId, SentencePart, is_valid_id};
use crate::highlight::{highlight_by_ranges, parts_from, ranges_within};

verus! {

broadcast use vstd::std_specs::btree::group_btree_axioms, vstd::laws_cmp::group_laws_cmp;

/// The key a sentence is stored under: `doc` in the high half, the
/// sentence index in the low half.
pub open spec fn sentence_key(id: SentenceId) -> u64 {
    (id.doc as int * 0x1_0000_0000 + id.sentence as int) as u64
}

pub fn sentence_key_of(id: SentenceId) -> (r: u64)
    ensures
        r == sentence_key(id),
{
    id.doc as u64 * 0x1_0000_0000 + id.sentence as u64
}

/// A matching sentence and the byte ranges of its text that explain why.
pub struct SearchResult<'a, SM> {
    pub id: SentenceId,
    pub highlighted_parts: Vec<CopyableRange>,
    pub sentence: &'a Sentence<SM>,
}

impl<'a, SM> SearchResult<'a, SM> {
    /// The sentence's text cut into plain and highlighted parts.
    pub fn highlights(&self) -> (r: Vec<SentencePart>)
        requires
            ranges_within(self.highlighted_parts@, self.sentence.text_len() as nat),
        ensures
            r@ == parts_from(self.highlighted_parts@, 0, self.sentence.text_len()),
    {
        highlight_by_ranges(self.highlighted_parts.as_slice(), self.sentence.text.as_str())
    }
}

pub struct SearchEngine<DM, SM> {
    pub doc_meta: Vec<DM>,
    pub sentences: BTreeMap<u64, Sentence<SM>>,
    pub index: BTreeMap<u32, Vec<SentenceId>>,
}

impl<DM, SM> SearchEngine<DM, SM> {
    /// The sentences holding term `t`; none for a term that is not indexed.
    pub open spec fn posting(&self, t: u32) -> Seq<SentenceId> {
        if self.index@.contains_key(t) {
            self.index@[t]@
        } else {
            Seq::empty()
        }
    }

    /// The metadata of the document of `id`.
    pub open spec fn meta_of(&self, id: SentenceId) -> DM {
        self.doc_meta@[id.doc as int]
    }

    pub open spec fn wf(&self) -> bool {
        &&& forall|t: u32| #[trigger] strictly_sorted(self.posting(t))
        &&& forall|t: u32, i: int| 0 <= i < self.posting(t).len() ==> is_valid_id(#[trigger] self.posting(t)[i])
            && (self.posting(t)[i].doc as int) < self.doc_meta@.len()
        &&& forall|k: u64| #[trigger] self.sentences@.contains_key(k) ==> self.sentences@[k].wf()
    }

    /// The posting list of `t`.
    pub fn posting_list(&self, t: u32) -> (r: &[SentenceId])
        ensures
            r@ == self.posting(t),
    {
        match self.index.get(&t) {
            Some(v) => v.as_slice(),
            None => &[],
        }
    }

    /// The stored sentence of `id`, if there is one.
    pub fn sentence(&self, id: SentenceId) -> (r: Option<&Sentence<SM>>)
        ensures
            match r {
                Some(s) => self.sentences@.contains_key(sentence_key(id)) && *s == self.sentences@[sentence_key(id)],
                None => !self.sentences@.contains_key(sentence_key(id)),
            },
    {
        let key = sentence_key_of(id);
        self.sentences.get(&key)
    }
}

} // verus!
