//! Sentence ids, byte ranges and the parts a highlighted sentence splits into.
use vstd::prelude::*;
use std::collections::BTreeMap;

verus! {

/// A byte range `start..end` inside a sentence's text.
#[derive(Clone, Copy, Debug, PartialEq, Eq, Structural)]
pub struct CopyableRange {
    pub start: usize,
    pub end: usize,
}

/// A token is the byte range of one word of a sentence.
pub type Token = CopyableRange;

/// A highlight range inside a sentence.
pub type SentenceRange = CopyableRange;

impl CopyableRange {
    pub open spec fn is_nonempty(self) -> bool {
        self.start < self.end
    }
}

impl Default for CopyableRange {
    fn default() -> (r: CopyableRange)
        ensures
            r.start == 0 && r.end == 0,
    {
        CopyableRange { start: 0, end: 0 }
    }
}

/// Identifies a sentence: the document it belongs to and its line index in
/// that document. The all-zero id is the tombstone, never a real sentence.
#[derive(Clone, Copy, Debug, PartialEq, Eq, Structural, Hash)]
pub struct SentenceId {
    pub doc: u32,
    pub sentence: u32,
}

/// The position of an id in the ascending `(doc, sentence)` order.
pub open spec fn id_key(id: SentenceId) -> int {
    id.doc as int * 0x1_0000_0000 + id.sentence as int
}

pub open spec fn id_le(a: SentenceId, b: SentenceId) -> bool {
    id_key(a) <= id_key(b)
}

pub open spec fn id_lt(a: SentenceId, b: SentenceId) -> bool {
    id_key(a) < id_key(b)
}

/// The tombstone.
pub open spec fn zero_id() -> SentenceId {
    SentenceId { doc: 0, sentence: 0 }
}

pub open spec fn is_valid_id(id: SentenceId) -> bool {
    id != zero_id()
}

/// Distinct ids have distinct keys, so the key order is total on ids.
pub proof fn lemma_id_key_injective(a: SentenceId, b: SentenceId)
    ensures
        id_key(a) == id_key(b) <==> a == b,
        id_key(a) >= 0,
        a == zero_id() <==> id_key(a) == 0,
{
}

impl SentenceId {
    pub fn new(doc: u32, sentence: u32) -> (r: SentenceId)
        ensures
            r.doc == doc,
            r.sentence == sentence,
    {
        SentenceId { doc, sentence }
    }

    /// The tombstone id `(0, 0)`.
    pub fn zeroed() -> (r: SentenceId)
        ensures
            r == zero_id(),
    {
        SentenceId { doc: 0, sentence: 0 }
    }

    pub fn is_valid(&self) -> (r: bool)
        ensures
            r == is_valid_id(*self),
    {
        self.doc != 0 || self.sentence != 0
    }

    /// `self < other` in `(doc, sentence)` order.
    pub fn lt(&self, other: &SentenceId) -> (r: bool)
        ensures
            r == id_lt(*self, *other),
    {
        self.doc < other.doc || (self.doc == other.doc && self.sentence < other.sentence)
    }

    /// `self <= other` in `(doc, sentence)` order.
    pub fn le(&self, other: &SentenceId) -> (r: bool)
        ensures
            r == id_le(*self, *other),
    {
        self.doc < other.doc || (self.doc == other.doc && self.sentence <= other.sentence)
    }
}

/// One line of a document, cut into words.
///
/// `terms[i]` is the term id of the word at `tokens[i]`, and
/// `terms_by_value[t]` lists, ascending, every position `i` with
/// `terms[i] == t`; its keys are exactly the terms that occur.
pub struct Sentence<SM> {
    pub text: String,
    pub tokens: Vec<Token>,
    pub terms_by_value: BTreeMap<u32, Vec<usize>>,
    pub terms: Vec<u32>,
    pub metadata: SM,
}

/// Per-sentence metadata, made from the sentence's text.
pub trait SentenceMetadata: Sized {
    /// The metadata of a sentence with text `line`.
    spec fn of_line(line: Seq<char>) -> Self;

    fn for_line(line: &str) -> (r: Self)
        ensures
            r == Self::of_line(line@);
}

/// No metadata.
impl SentenceMetadata for () {
    open spec fn of_line(line: Seq<char>) -> () {
        ()
    }

    fn for_line(line: &str) -> (r: ()) {
        ()
    }
}

/// The ascending positions of `t` in `terms`.
pub open spec fn positions_of(terms: Seq<u32>, t: u32) -> Seq<usize>
    decreases terms.len(),
{
    if terms.len() == 0 {
        Seq::empty()
    } else {
        let last = (terms.len() - 1) as int;
        let before = positions_of(terms.subrange(0, last), t);
        if terms[last] == t {
            before.push(last as usize)
        } else {
            before
        }
    }
}

/// Each position listed for `t` lies inside `terms` and holds `t`.
pub proof fn lemma_positions_of_bounds(terms: Seq<u32>, t: u32)
    requires
        terms.len() <= usize::MAX,
    ensures
        forall|j: int| 0 <= j < positions_of(terms, t).len() ==> (#[trigger] positions_of(terms, t)[j]) < terms.len()
            && terms[positions_of(terms, t)[j] as int] == t,
    decreases terms.len(),
{
    if terms.len() > 0 {
        let last = (terms.len() - 1) as int;
        let pre = terms.subrange(0, last);
        lemma_positions_of_bounds(pre, t);
        let before = positions_of(pre, t);
        assert forall|j: int| 0 <= j < positions_of(terms, t).len() implies (#[trigger] positions_of(terms, t)[j]) < terms.len()
            && terms[positions_of(terms, t)[j] as int] == t by {
            if terms[last] == t {
                assert(positions_of(terms, t) == before.push(last as usize));
            } else {
                assert(positions_of(terms, t) == before);
            }
            if j < before.len() {
                assert(positions_of(terms, t)[j] == before[j]);
                assert(pre[before[j] as int] == terms[before[j] as int]);
            }
        }
    }
}

impl<SM> Sentence<SM> {
    /// The positions stored for `t` (none if `t` is absent).
    pub open spec fn stored_positions(&self, t: u32) -> Seq<usize> {
        if self.terms_by_value@.contains_key(t) {
            self.terms_by_value@[t]@
        } else {
            Seq::empty()
        }
    }

    /// The text's length in bytes.
    pub open spec fn text_len(&self) -> usize {
        vstd::utf8::encode_utf8(self.text@).len() as usize
    }

    pub open spec fn wf(&self) -> bool {
        &&& self.tokens@.len() == self.terms@.len()
        &&& forall|t: u32| #[trigger] self.stored_positions(t) == positions_of(self.terms@, t)
        &&& forall|t: u32| #[trigger] self.terms_by_value@.contains_key(t) ==> self.terms@.contains(t)
        &&& forall|i: int| 0 <= i < self.tokens@.len() ==> (#[trigger] self.tokens@[i]).start <= self.tokens@[i].end
            && self.tokens@[i].end <= self.text_len()
        &&& forall|i: int, j: int| 0 <= i < j < self.tokens@.len() ==> (#[trigger] self.tokens@[i]).end <= (#[trigger] self.tokens@[j]).start
    }
}

/// A piece of a sentence's text, given by its byte range: either plain or
/// highlighted.
#[derive(Clone, Copy, Debug, PartialEq, Eq, Structural)]
pub enum SentencePart {
    Normal(CopyableRange),
    Highlight(CopyableRange),
}

} // verus!
