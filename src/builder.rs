//! Building a database: documents are cut into sentences and terms, and the
//! inverted index from term to sentences is accumulated, then sorted.
use vstd::prelude::*;
use std::collections::BTreeMap;
use crate::id_list::{SentenceIdList, sort_ids, strictly_sorted};
use crate::searcher::{SearchEngine, sentence_key, sentence_key_of};
use crate::sentence::{Sentence, SentenceId, SentenceMetadata, is_valid_id};
use crate::term_map::{FrozenTermMap, TermMap, is_term_id, lines_of, sentence_of_line, term_key, total_words, word_terms, word_indices_of};
use crate::database::Database;
use crate::filter::DocumentMetadata;

verus! {

broadcast use vstd::std_specs::btree::group_btree_axioms, vstd::laws_cmp::group_laws_cmp;

/// A document to add: its id, text, metadata and stored payload.
pub struct DocumentData<D, DM> {
    pub id: u32,
    pub text: String,
    pub metadata: DM,
    pub data: D,
}

#[derive(Clone, Copy, Debug, PartialEq, Eq, Structural)]
pub enum BuildError {
    /// A sentence would get the tombstone id (document 0, line 0), or a
    /// document has more lines than sentence indices.
    InvalidCorpus,
    /// The dictionary has no term id left.
    DictionaryFull,
}

pub struct DatabaseBuilder<D, DM, SM> {
    sentence_map: BTreeMap<u64, Sentence<SM>>,
    term_to_sentence: BTreeMap<u32, Vec<SentenceId>>,
    terms_seen: Vec<u32>,
    doc_metadata: BTreeMap<u32, DM>,
    doc_storage: BTreeMap<u32, D>,
    doc_ids: Vec<u32>,
    term_map: TermMap,
}

/// The line `line` is stored under `id`, and `id` is in the posting list
/// of each of the line's terms.
pub open spec fn stored_line<D, DM: DocumentMetadata, SM: SentenceMetadata>(b: &DatabaseBuilder<D, DM, SM>, id: SentenceId, line: Sentence<SM>) -> bool {
    let key = sentence_key(id);
    &&& b.sentences().contains_key(key)
    &&& b.sentences()[key] == line
    &&& forall|j: int| 0 <= j < line.terms@.len() ==> #[trigger] b.postings(line.terms@[j]).contains(id)
}

/// The sentence stored under `id` has text `text`, and `id` is in the
/// posting list of each of its terms.
pub open spec fn line_stored<D, DM: DocumentMetadata, SM: SentenceMetadata>(b: &DatabaseBuilder<D, DM, SM>, id: SentenceId, text: Seq<char>) -> bool {
    let key = sentence_key(id);
    &&& b.sentences().contains_key(key)
    &&& b.sentences()[key].text@ == text
    &&& forall|j: int| 0 <= j < b.sentences()[key].terms@.len() ==> #[trigger] b.postings(b.sentences()[key].terms@[j]).contains(id)
}

/// `x` is a sentence among lines `lo..n` of document `doc` whose terms
/// hold `t`.
pub open spec fn new_posting<SM>(all: Seq<Sentence<SM>>, doc: u32, lo: int, n: int, t: u32, x: SentenceId) -> bool {
    &&& x.doc == doc
    &&& lo <= x.sentence < n
    &&& all[x.sentence as int].terms@.contains(t)
}

/// `key` is the key of one of lines `lo..hi` of document `doc`.
pub open spec fn line_key_in(doc: u32, lo: int, hi: int, key: u64) -> bool {
    exists|i: int| lo <= i < hi && key == #[trigger] sentence_key(SentenceId { doc, sentence: i as u32 })
}

/// Line `i` of the document is stored as sentence `(doc, i)` and indexed.
pub open spec fn document_stored<D, DM: DocumentMetadata, SM: SentenceMetadata>(b: &DatabaseBuilder<D, DM, SM>, doc: u32, lines: Seq<Seq<char>>) -> bool {
    forall|i: int| 0 <= i < lines.len() ==> #[trigger] line_stored(b, SentenceId { doc, sentence: i as u32 }, lines[i])
}

impl<D, DM: DocumentMetadata, SM: SentenceMetadata> DatabaseBuilder<D, DM, SM> {
    /// The payloads added so far, by document id.
    pub closed spec fn documents(&self) -> Map<u32, D> {
        self.doc_storage@
    }

    /// The sentences recorded so far as holding term `t`.
    pub closed spec fn postings(&self, t: u32) -> Seq<SentenceId> {
        if self.term_to_sentence@.contains_key(t) {
            self.term_to_sentence@[t]@
        } else {
            Seq::empty()
        }
    }

    /// The metadata added so far, by document id.
    pub closed spec fn metadata(&self) -> Map<u32, DM> {
        self.doc_metadata@
    }

    /// The dictionary: stem to term id.
    pub closed spec fn dictionary(&self) -> Map<Seq<char>, u32> {
        self.term_map@
    }

    /// How many stems the dictionary holds.
    pub closed spec fn dictionary_size(&self) -> nat {
        self.term_map.size()
    }

    /// The stored sentences so far, by sentence key.
    pub closed spec fn sentences(&self) -> Map<u64, Sentence<SM>> {
        self.sentence_map@
    }

    pub closed spec fn wf(&self) -> bool {
        &&& self.term_map.wf()
        &&& forall|k: u64| #[trigger] self.sentence_map@.contains_key(k) ==> self.sentence_map@[k].wf()
        &&& forall|t: u32| #[trigger] self.term_to_sentence@.contains_key(t) ==> self.terms_seen@.contains(t)
            && is_term_id(self.term_map@, t)
        &&& forall|t: u32, i: int| #[trigger] self.term_to_sentence@.contains_key(t) && 0 <= i < self.term_to_sentence@[t]@.len()
            ==> is_valid_id(#[trigger] self.term_to_sentence@[t]@[i])
                && self.doc_metadata@.contains_key(self.term_to_sentence@[t]@[i].doc)
        &&& forall|d: u32| #[trigger] self.doc_metadata@.contains_key(d) ==> self.doc_ids@.contains(d)
        &&& forall|i: int| 0 <= i < self.doc_ids@.len() ==> self.doc_metadata@.contains_key(#[trigger] self.doc_ids@[i])
    }

    pub fn new() -> (r: DatabaseBuilder<D, DM, SM>)
        ensures
            r.wf(),
            r.documents() == Map::<u32, D>::empty(),
            r.sentences() == Map::<u64, Sentence<SM>>::empty(),
            r.metadata() == Map::<u32, DM>::empty(),
            r.dictionary() == Map::<Seq<char>, u32>::empty(),
            r.dictionary_size() == 0,
            forall|t: u32| #[trigger] r.postings(t) == Seq::<SentenceId>::empty(),
    {
        DatabaseBuilder {
            sentence_map: BTreeMap::new(),
            term_to_sentence: BTreeMap::new(),
            terms_seen: Vec::new(),
            doc_metadata: BTreeMap::new(),
            doc_storage: BTreeMap::new(),
            doc_ids: Vec::new(),
            term_map: TermMap::new(),
        }
    }

    /// Records that sentence `id` holds term `t`.
    fn add_posting(&mut self, t: u32, id: SentenceId)
        requires
            old(self).wf(),
            is_term_id(old(self).term_map@, t),
            is_valid_id(id),
            old(self).doc_metadata@.contains_key(id.doc),
        ensures
            final(self).wf(),
            final(self).sentence_map == old(self).sentence_map,
            final(self).doc_metadata == old(self).doc_metadata,
            final(self).doc_storage == old(self).doc_storage,
            final(self).doc_ids == old(self).doc_ids,
            final(self).term_map == old(self).term_map,
            final(self).postings(t) == old(self).postings(t).push(id),
            forall|u: u32| u != t ==> final(self).postings(u) == old(self).postings(u),
    {
        let mut list = match self.term_to_sentence.remove(&t) {
            Some(l) => {
                proof {
                    assert(old(self).term_to_sentence@.contains_key(t));
                    assert(self.terms_seen@.contains(t));
                }
                l
            },
            None => {
                self.terms_seen.push(t);
                proof {
                    assert(self.terms_seen@[self.terms_seen@.len() - 1] == t);
                }
                Vec::new()
            },
        };
        let ghost before = list@;
        list.push(id);
        self.term_to_sentence.insert(t, list);
        proof {
            assert(self.terms_seen@.contains(t));
            assert forall|u: u32| #[trigger] self.term_to_sentence@.contains_key(u) implies self.terms_seen@.contains(u) by {
                if u != t {
                    assert(old(self).term_to_sentence@.contains_key(u));
                    let j = choose|j: int| 0 <= j < old(self).terms_seen@.len() && old(self).terms_seen@[j] == u;
                    assert(self.terms_seen@[j] == u);
                }
            }
        }
    }

    /// Adds a document: each line becomes a sentence, indexed under each of
    /// its terms. A document with an id already added replaces its payload
    /// and metadata.
    pub fn add_document(&mut self, doc: DocumentData<D, DM>) -> (r: Result<(), BuildError>)
        requires
            old(self).wf(),
        ensures
            final(self).wf(),
            r is Ok ==> final(self).documents() == old(self).documents().insert(doc.id, doc.data),
            r is Err ==> final(self).documents() == old(self).documents(),
            r == Err::<(), BuildError>(BuildError::InvalidCorpus) ==> (doc.id == 0 && lines_of(doc.text@).len() > 0)
                || lines_of(doc.text@).len() > 0x1_0000_0000,
            (doc.id == 0 && lines_of(doc.text@).len() > 0) || lines_of(doc.text@).len() > 0x1_0000_0000 ==> r is Err,
            forall|t: u32, x: SentenceId| #[trigger] old(self).postings(t).contains(x) ==> final(self).postings(t).contains(x),
            r is Ok ==> document_stored(final(self), doc.id, lines_of(doc.text@)),
            r is Ok ==> final(self).metadata() == old(self).metadata().insert(doc.id, doc.metadata),
            forall|k: Seq<char>| #[trigger] old(self).dictionary().contains_key(k) ==> final(self).dictionary().contains_key(k)
                && final(self).dictionary()[k] == old(self).dictionary()[k],
            r is Ok ==> forall|key: u64| #[trigger] final(self).sentences().contains_key(key) <==> old(self).sentences().contains_key(key)
                || line_key_in(doc.id, 0, lines_of(doc.text@).len() as int, key),
            r is Ok ==> forall|key: u64| #[trigger] old(self).sentences().contains_key(key)
                && !line_key_in(doc.id, 0, lines_of(doc.text@).len() as int, key) ==> final(self).sentences()[key] == old(self).sentences()[key],
            r is Ok ==> forall|i: int| 0 <= i < lines_of(doc.text@).len() ==> sentence_of_line(final(self).dictionary(),
                lines_of(doc.text@)[i], #[trigger] final(self).sentences()[sentence_key(SentenceId { doc: doc.id, sentence: i as u32 })]),
            r is Ok ==> forall|t: u32, x: SentenceId| #[trigger] final(self).postings(t).contains(x) <==> old(self).postings(t).contains(x)
                || (x.doc == doc.id && x.sentence < lines_of(doc.text@).len()
                    && final(self).sentences()[sentence_key(x)].terms@.contains(t)),
            r is Err ==> final(self).sentences() == old(self).sentences() && final(self).metadata() == old(self).metadata()
                && forall|t: u32| #[trigger] final(self).postings(t) == old(self).postings(t),
            r == Err::<(), BuildError>(BuildError::DictionaryFull) ==> old(self).dictionary_size() + total_words(lines_of(doc.text@)) + 2 >= u32::MAX,
            !(doc.id == 0 && lines_of(doc.text@).len() > 0) && lines_of(doc.text@).len() <= 0x1_0000_0000
                && old(self).dictionary_size() + total_words(lines_of(doc.text@)) + 2 < u32::MAX ==> r is Ok,
    {
        let ghost lines = lines_of(doc.text@);
        let mut sentences = match self.term_map.tokenize_all::<SM>(doc.text.as_str()) {
            Some(s) => s,
            None => {
                return Err(BuildError::DictionaryFull);
            },
        };
        proof {
            assert forall|t: u32| #[trigger] self.term_to_sentence@.contains_key(t) implies self.terms_seen@.contains(t)
                && is_term_id(self.term_map@, t) by {
                assert(is_term_id(old(self).term_map@, t));
                let k = choose|k: Seq<char>| #[trigger] old(self).term_map@.contains_key(k) && old(self).term_map@[k] == t;
                assert(self.term_map@.contains_key(k));
            }
        }
        let n = sentences.len();
        if n > 0 && doc.id == 0 {
            return Err(BuildError::InvalidCorpus);
        }
        if n as u64 > 0x1_0000_0000u64 {
            return Err(BuildError::InvalidCorpus);
        }
        let id = doc.id;
        let ghost all = sentences@;
        let ghost start = *self;
        let ghost meta = doc.metadata;
        self.doc_metadata.insert(id, doc.metadata);
        let ghost metas = self.doc_metadata@;
        self.doc_ids.push(id);
        proof {
            assert forall|d: u32| #[trigger] self.doc_metadata@.contains_key(d) implies self.doc_ids@.contains(d) by {
                if d != id {
                    let j = choose|j: int| 0 <= j < old(self).doc_ids@.len() && old(self).doc_ids@[j] == d;
                    assert(self.doc_ids@[j] == d);
                } else {
                    assert(self.doc_ids@[self.doc_ids@.len() - 1] == d);
                }
            }
            assert forall|i: int| 0 <= i < self.doc_ids@.len() implies self.doc_metadata@.contains_key(#[trigger] self.doc_ids@[i]) by {
                if i < old(self).doc_ids@.len() {
                    assert(old(self).doc_metadata@.contains_key(old(self).doc_ids@[i]));
                }
            }
            assert forall|t: u32, i: int| #[trigger] self.term_to_sentence@.contains_key(t) && 0 <= i < self.term_to_sentence@[t]@.len()
                implies is_valid_id(#[trigger] self.term_to_sentence@[t]@[i])
                    && self.doc_metadata@.contains_key(self.term_to_sentence@[t]@[i].doc) by {
            }
        }
        while sentences.len() > 0
            invariant
                self.wf(),
                self.doc_metadata@.contains_key(id),
                self.doc_metadata@ == metas,
                metas == old(self).doc_metadata@.insert(id, meta),
                self.doc_storage == old(self).doc_storage,
                n as u64 <= 0x1_0000_0000u64,
                n == all.len(),
                lines == lines_of(doc.text@),
                all.len() == lines.len(),
                forall|j: int| 0 <= j < all.len() ==> (#[trigger] all[j]).wf() && all[j].text@ == lines[j],
                forall|j: int| 0 <= j < all.len() ==> sentence_of_line(self.term_map@, lines[j], #[trigger] all[j]),
                sentences@ == all.subrange(0, sentences@.len() as int),
                sentences@.len() <= n,
                n > 0 ==> id != 0,
                forall|t: u32, x: SentenceId| #[trigger] start.postings(t).contains(x) ==> self.postings(t).contains(x),
                forall|t: u32, x: SentenceId| #[trigger] self.postings(t).contains(x) ==> start.postings(t).contains(x)
                    || new_posting(all, id, sentences@.len() as int, n as int, t, x),
                self.term_map == start.term_map,
                forall|key: u64| #[trigger] self.sentences().contains_key(key) <==> start.sentences().contains_key(key)
                    || line_key_in(id, sentences@.len() as int, n as int, key),
                forall|key: u64| #[trigger] start.sentences().contains_key(key) && !line_key_in(id, sentences@.len() as int, n as int, key)
                    ==> self.sentences()[key] == start.sentences()[key],
                forall|idx: int| #![trigger all[idx]] sentences@.len() <= idx < n ==> stored_line(self, SentenceId { doc: id, sentence: idx as u32 }, all[idx]),
            decreases sentences@.len(),
        {
            let ghost len0 = sentences@.len();
            let sentence = sentences.pop().unwrap();
            proof {
                assert(sentence == all[len0 - 1]);
                assert(sentence_of_line(self.term_map@, lines[len0 - 1], all[len0 - 1]));
                assert(sentences@ =~= all.subrange(0, sentences@.len() as int));
            }
            let idx = sentences.len() as u32;
            let sid = SentenceId::new(id, idx);
            let ghost before_terms = *self;
            let mut k: usize = 0;
            while k < sentence.terms.len()
                invariant
                    self.wf(),
                    self.doc_metadata@.contains_key(id),
                    self.doc_metadata@ == metas,
                    self.doc_storage == old(self).doc_storage,
                    self.sentence_map == before_terms.sentence_map,
                    self.term_map == before_terms.term_map,
                    sentence_of_line(self.term_map@, lines[len0 - 1], sentence),
                    is_valid_id(sid),
                    sid.doc == id,
                    forall|t: u32, x: SentenceId| #[trigger] before_terms.postings(t).contains(x) ==> self.postings(t).contains(x),
                    forall|t: u32, x: SentenceId| #[trigger] self.postings(t).contains(x) ==> before_terms.postings(t).contains(x)
                        || (x == sid && sentence.terms@.contains(t)),
                    forall|j: int| 0 <= j < k ==> #[trigger] self.postings(sentence.terms@[j]).contains(sid),
                decreases sentence.terms@.len() - k,
            {
                let ghost prev = *self;
                let t = sentence.terms[k];
                proof {
                    let kept = word_indices_of(lines[len0 - 1]);
                    assert(sentence.terms@ == word_terms(self.term_map@, kept));
                    assert(self.term_map@.contains_key(term_key(kept[k as int].1)));
                    assert(self.term_map@[term_key(kept[k as int].1)] == t);
                }
                self.add_posting(t, sid);
                proof {
                    assert(self.postings(t).contains(sid)) by {
                        assert(self.postings(t)[self.postings(t).len() - 1] == sid);
                    }
                    assert forall|j: int| 0 <= j < k + 1 implies #[trigger] self.postings(sentence.terms@[j]).contains(sid) by {
                        if j < k {
                            assert(prev.postings(sentence.terms@[j]).contains(sid));
                        }
                    }
                    assert forall|u: u32, x: SentenceId| #[trigger] prev.postings(u).contains(x) implies self.postings(u).contains(x) by {
                        if u == t {
                            let q = choose|q: int| 0 <= q < prev.postings(u).len() && prev.postings(u)[q] == x;
                            assert(self.postings(u)[q] == x);
                        }
                    }
                    assert forall|u: u32, x: SentenceId| #[trigger] self.postings(u).contains(x) implies before_terms.postings(u).contains(x)
                        || (x == sid && sentence.terms@.contains(u)) by {
                        if u == t {
                            let q = choose|q: int| 0 <= q < self.postings(u).len() && self.postings(u)[q] == x;
                            if q < prev.postings(u).len() {
                                assert(prev.postings(u)[q] == x);
                                assert(prev.postings(u).contains(x));
                            } else {
                                assert(sentence.terms@[k as int] == t);
                            }
                        } else {
                            assert(prev.postings(u) == self.postings(u));
                        }
                    }
                }
                k = k + 1;
            }
            let key = sentence_key_of(sid);
            let ghost stored = sentence;
            let ghost before_insert = *self;
            self.sentence_map.insert(key, sentence);
            proof {
                assert(forall|t: u32| #[trigger] self.postings(t) == before_insert.postings(t));
                assert forall|j: int| 0 <= j < stored.terms@.len() implies #[trigger] self.postings(stored.terms@[j]).contains(sid) by {
                    assert(before_insert.postings(stored.terms@[j]).contains(sid));
                }
                assert forall|t: u32, x: SentenceId| #[trigger] start.postings(t).contains(x) implies self.postings(t).contains(x) by {
                    assert(before_terms.postings(t).contains(x));
                    assert(before_insert.postings(t).contains(x));
                }
                assert(stored_line(self, sid, stored));
                assert(key == sentence_key(SentenceId { doc: id, sentence: (len0 - 1) as u32 }));
                assert(before_insert.sentences() == before_terms.sentences());
                assert(self.sentences() == before_insert.sentences().insert(key, stored));
                assert forall|kk: u64| #[trigger] self.sentences().contains_key(kk) <==> start.sentences().contains_key(kk)
                    || line_key_in(id, sentences@.len() as int, n as int, kk) by {
                    if kk == key {
                        assert(line_key_in(id, sentences@.len() as int, n as int, kk));
                    } else {
                        if line_key_in(id, sentences@.len() as int, n as int, kk) {
                            let i = choose|i: int| sentences@.len() <= i < n && kk == #[trigger] sentence_key(SentenceId { doc: id, sentence: i as u32 });
                            assert(i != len0 - 1);
                            assert(line_key_in(id, len0 as int, n as int, kk));
                            assert(before_terms.sentences().contains_key(kk));
                        }
                        if start.sentences().contains_key(kk) {
                            assert(before_terms.sentences().contains_key(kk));
                        }
                        if before_terms.sentences().contains_key(kk) {
                            if line_key_in(id, len0 as int, n as int, kk) {
                                let i = choose|i: int| len0 <= i < n && kk == #[trigger] sentence_key(SentenceId { doc: id, sentence: i as u32 });
                                assert(line_key_in(id, sentences@.len() as int, n as int, kk));
                            }
                        }
                    }
                }
                assert forall|kk: u64| #[trigger] start.sentences().contains_key(kk) && !line_key_in(id, sentences@.len() as int, n as int, kk)
                    implies self.sentences()[kk] == start.sentences()[kk] by {
                    if line_key_in(id, len0 as int, n as int, kk) {
                        let i = choose|i: int| len0 <= i < n && kk == #[trigger] sentence_key(SentenceId { doc: id, sentence: i as u32 });
                        assert(line_key_in(id, sentences@.len() as int, n as int, kk));
                    }
                    assert(kk != key);
                }
                assert forall|t: u32, x: SentenceId| #[trigger] self.postings(t).contains(x) implies start.postings(t).contains(x)
                    || new_posting(all, id, sentences@.len() as int, n as int, t, x) by {
                    assert(before_insert.postings(t).contains(x));
                    if before_terms.postings(t).contains(x) {
                        if !start.postings(t).contains(x) {
                            assert(new_posting(all, id, len0 as int, n as int, t, x));
                        }
                    } else {
                        assert(x == sid && stored.terms@.contains(t));
                        assert(stored == all[len0 - 1]);
                    }
                }
                assert forall|j: int| #![trigger all[j]] sentences@.len() <= j < n implies stored_line(self, SentenceId { doc: id, sentence: j as u32 }, all[j]) by {
                    if j == sentences@.len() {
                        assert(SentenceId { doc: id, sentence: j as u32 } == sid);
                    } else {
                        let other = SentenceId { doc: id, sentence: j as u32 };
                        assert(stored_line(&before_terms, other, all[j]));
                        assert(sentence_key(other) != key) by {
                            assert((j as u32) != idx);
                        }
                        assert forall|q: int| 0 <= q < all[j].terms@.len() implies #[trigger] self.postings(all[j].terms@[q]).contains(other) by {
                            assert(before_terms.postings(all[j].terms@[q]).contains(other));
                            assert(before_insert.postings(all[j].terms@[q]).contains(other));
                        }
                    }
                }
            }
        }
        let ghost before_store = *self;
        self.doc_storage.insert(id, doc.data);
        proof {
            assert(forall|t: u32| #[trigger] self.postings(t) == before_store.postings(t));
            assert(self.sentences() == before_store.sentences());
            assert forall|i: int| 0 <= i < lines.len() implies #[trigger] line_stored(self, SentenceId { doc: id, sentence: i as u32 }, lines[i]) by {
                let sid = SentenceId { doc: id, sentence: i as u32 };
                let key = sentence_key(sid);
                assert(stored_line(&before_store, sid, all[i]));
                assert(self.sentences()[key] == all[i]);
                assert forall|j: int| 0 <= j < all[i].terms@.len() implies #[trigger] self.postings(all[i].terms@[j]).contains(sid) by {
                    assert(before_store.postings(all[i].terms@[j]).contains(sid));
                }
            }
            assert(document_stored(self, id, lines));
            assert(lines.len() == n);
            assert forall|i: int| 0 <= i < lines.len() implies sentence_of_line(self.dictionary(),
                lines[i], #[trigger] self.sentences()[sentence_key(SentenceId { doc: id, sentence: i as u32 })]) by {
                assert(stored_line(&before_store, SentenceId { doc: id, sentence: i as u32 }, all[i]));
            }
            assert(start.sentences() == old(self).sentences());
            assert forall|t: u32, x: SentenceId| #[trigger] self.postings(t).contains(x) <==> old(self).postings(t).contains(x)
                || (x.doc == id && x.sentence < lines.len() && self.sentences()[sentence_key(x)].terms@.contains(t)) by {
                assert(start.postings(t) == old(self).postings(t));
                if x.doc == id && x.sentence < lines.len() {
                    assert(stored_line(&before_store, x, all[x.sentence as int]));
                    if self.sentences()[sentence_key(x)].terms@.contains(t) {
                        let q = choose|q: int| 0 <= q < all[x.sentence as int].terms@.len() && all[x.sentence as int].terms@[q] == t;
                        assert(before_store.postings(all[x.sentence as int].terms@[q]).contains(x));
                    }
                }
                if self.postings(t).contains(x) && !old(self).postings(t).contains(x) {
                    assert(before_store.postings(t).contains(x));
                    assert(new_posting(all, id, 0, n as int, t, x));
                    assert(stored_line(&before_store, x, all[x.sentence as int]));
                }
            }
            assert forall|t: u32, x: SentenceId| #[trigger] old(self).postings(t).contains(x) implies self.postings(t).contains(x) by {
                assert(start.postings(t) == old(self).postings(t));
                assert(before_store.postings(t).contains(x));
            }
        }
        Ok(())
    }

    /// Sorts and de-duplicates every posting list, lays the document
    /// metadata out by id, and freezes the dictionary.
    pub fn build(self) -> (r: Database<D, DM, SM>)
        requires
            self.wf(),
        ensures
            r.wf(),
            r.documents@ == self.documents(),
            r.search.sentences@ == self.sentences(),
            forall|t: u32, x: SentenceId| #[trigger] r.search.posting(t).contains(x) <==> self.postings(t).contains(x),
            forall|t: u32| #[trigger] r.search.index@.contains_key(t) ==> is_term_id(r.term_map@, t),
            r.search.doc_meta@.len() == 1 || self.metadata().contains_key((r.search.doc_meta@.len() - 1) as u32),
            forall|k: int| 0 <= k < r.search.doc_meta@.len() && !self.metadata().contains_key(k as u32)
                ==> #[trigger] r.search.doc_meta@[k] == DM::absent(),
            r.term_map@ == self.dictionary(),
            forall|d: u32| #[trigger] self.metadata().contains_key(d) ==> (d as int) < r.search.doc_meta@.len()
                && r.search.doc_meta@[d as int] == self.metadata()[d],
    {
        let ghost b = self;
        let DatabaseBuilder { sentence_map, term_to_sentence, terms_seen, doc_metadata, doc_storage, doc_ids, term_map } = self;
        let mut max_doc: u32 = 0;
        let mut i: usize = 0;
        while i < doc_ids.len()
            invariant
                0 <= i <= doc_ids@.len(),
                forall|j: int| 0 <= j < i ==> (#[trigger] doc_ids@[j]) <= max_doc,
                max_doc == 0 || exists|j: int| 0 <= j < i && doc_ids@[j] == max_doc,
            decreases doc_ids@.len() - i,
        {
            if doc_ids[i] > max_doc {
                max_doc = doc_ids[i];
            }
            i = i + 1;
        }
        let n_meta: u64 = max_doc as u64 + 1;
        let absent = DM::absent_metadata();
        let mut doc_meta: Vec<DM> = Vec::new();
        let mut d: u64 = 0;
        while d < n_meta
            invariant
                0 <= d <= n_meta,
                n_meta == max_doc as u64 + 1,
                doc_meta@.len() == d,
                absent == DM::absent(),
                forall|k: int| 0 <= k < d ==> #[trigger] doc_meta@[k] == DM::absent(),
            decreases n_meta - d,
        {
            doc_meta.push(absent);
            d = d + 1;
        }
        let mut i: usize = 0;
        while i < doc_ids.len()
            invariant
                0 <= i <= doc_ids@.len(),
                doc_meta@.len() == max_doc as int + 1,
                forall|j: int| 0 <= j < doc_ids@.len() ==> (#[trigger] doc_ids@[j]) <= max_doc,
                forall|j: int| 0 <= j < doc_ids@.len() ==> doc_metadata@.contains_key(#[trigger] doc_ids@[j]),
                forall|j: int| 0 <= j < i ==> doc_meta@[#[trigger] doc_ids@[j] as int] == doc_metadata@[doc_ids@[j]],
                forall|k: int| 0 <= k < doc_meta@.len() && !(exists|j: int| 0 <= j < i && doc_ids@[j] as int == k)
                    ==> #[trigger] doc_meta@[k] == DM::absent(),
            decreases doc_ids@.len() - i,
        {
            let id = doc_ids[i];
            match doc_metadata.get(&id) {
                Some(m) => {
                    doc_meta.set(id as usize, *m);
                },
                None => {},
            }
            i = i + 1;
        }
        let mut index: BTreeMap<u32, Vec<SentenceId>> = BTreeMap::new();
        let mut k: usize = 0;
        while k < terms_seen.len()
            invariant
                0 <= k <= terms_seen@.len(),
                doc_meta@.len() == max_doc as int + 1,
                forall|dd: u32| #[trigger] doc_metadata@.contains_key(dd) ==> dd <= max_doc,
                forall|t: u32, j: int| #[trigger] term_to_sentence@.contains_key(t) && 0 <= j < term_to_sentence@[t]@.len()
                    ==> is_valid_id(#[trigger] term_to_sentence@[t]@[j])
                        && doc_metadata@.contains_key(term_to_sentence@[t]@[j].doc),
                forall|t: u32| #[trigger] index@.contains_key(t) ==> term_to_sentence@.contains_key(t)
                    && forall|x: SentenceId| #[trigger] index@[t]@.contains(x) <==> term_to_sentence@[t]@.contains(x),
                forall|j: int| 0 <= j < k && #[trigger] term_to_sentence@.contains_key(terms_seen@[j]) ==> index@.contains_key(terms_seen@[j]),
                forall|t: u32| #[trigger] index@.contains_key(t) ==> strictly_sorted(index@[t]@)
                    && forall|j: int| 0 <= j < index@[t]@.len() ==> is_valid_id(#[trigger] index@[t]@[j])
                        && (index@[t]@[j].doc as int) < doc_meta@.len(),
            decreases terms_seen@.len() - k,
        {
            let t = terms_seen[k];
            match term_to_sentence.get(&t) {
                Some(list) => {
                    let sorted_ids = sort_ids(list.as_slice(), 0, list.len());
                    let mut ids = SentenceIdList { ids: sorted_ids };
                    ids.dedup();
                    proof {
                        assert(list@.subrange(0, list@.len() as int) =~= list@);
                        assert forall|j: int| 0 <= j < ids@.len() implies is_valid_id(#[trigger] ids@[j])
                            && (ids@[j].doc as int) < doc_meta@.len() by {
                            assert(ids@.contains(ids@[j]));
                            let q = choose|q: int| 0 <= q < list@.len() && list@[q] == ids@[j];
                            assert(term_to_sentence@[t]@[q] == ids@[j]);
                            assert(doc_metadata@.contains_key(ids@[j].doc));
                        }
                    }
                    index.insert(t, ids.ids);
                    proof {
                        assert forall|x: SentenceId| #[trigger] index@[t]@.contains(x) <==> term_to_sentence@[t]@.contains(x) by {
                            assert(list@.subrange(0, list@.len() as int) =~= list@);
                        }
                    }
                },
                None => {},
            }
            k = k + 1;
        }
        proof {
            assert forall|dd: u32| #[trigger] doc_metadata@.contains_key(dd) implies dd <= max_doc by {
                let j = choose|j: int| 0 <= j < doc_ids@.len() && doc_ids@[j] == dd;
            }
            assert forall|dd: u32| #[trigger] b.metadata().contains_key(dd) implies (dd as int) < doc_meta@.len()
                && doc_meta@[dd as int] == b.metadata()[dd] by {
                let j = choose|j: int| 0 <= j < doc_ids@.len() && doc_ids@[j] == dd;
                assert(doc_meta@[doc_ids@[j] as int] == doc_metadata@[doc_ids@[j]]);
            }
            if max_doc != 0 {
                let j = choose|j: int| 0 <= j < doc_ids@.len() && doc_ids@[j] == max_doc;
                assert(doc_metadata@.contains_key(doc_ids@[j]));
            }
        }
        let search = SearchEngine { doc_meta, sentences: sentence_map, index };
        proof {
            assert forall|t: u32| #[trigger] search.index@.contains_key(t) implies is_term_id(b.term_map@, t) by {
                assert(term_to_sentence@.contains_key(t));
            }
            assert forall|t: u32, x: SentenceId| #[trigger] search.posting(t).contains(x) <==> b.postings(t).contains(x) by {
                if term_to_sentence@.contains_key(t) {
                    assert(terms_seen@.contains(t));
                    let j = choose|j: int| 0 <= j < terms_seen@.len() && terms_seen@[j] == t;
                    assert(index@.contains_key(terms_seen@[j]));
                }
            }
            assert forall|t: u32| #[trigger] strictly_sorted(search.posting(t)) by {
                if !search.index@.contains_key(t) {
                    assert(search.posting(t) =~= Seq::<SentenceId>::empty());
                }
            }
            assert forall|t: u32, j: int| 0 <= j < search.posting(t).len() implies is_valid_id(#[trigger] search.posting(t)[j])
                && (search.posting(t)[j].doc as int) < search.doc_meta@.len() by {
                assert(search.index@.contains_key(t));
            }
        }
        Database { search, documents: doc_storage, term_map: term_map.freeze() }
    }
}

} // verus!
