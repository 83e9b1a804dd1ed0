//! The term dictionary: words are lowercased and stemmed, and each distinct
//! stem is interned to a dense id starting at 1 (0 stands for an unknown
//! word in a query).
use vstd::prelude::*;
use vstd::string::StringSliceAdditionalSpecFns;
use std::collections::BTreeMap;
use crate::sentence::{CopyableRange, Sentence, SentenceMetadata, Token, positions_of};

verus! {

/// What `UnicodeSegmentation::unicode_word_indices` yields for a text: its
/// words with their byte offsets.
pub uninterp spec fn word_indices_of(s: Seq<char>) -> Seq<(usize, Seq<char>)>;

/// What `str::to_lowercase` yields.
pub uninterp spec fn lower_of(s: Seq<char>) -> Seq<char>;

/// What the English stemmer of `rust_stemmers` yields.
pub uninterp spec fn stem_of(s: Seq<char>) -> Seq<char>;

/// The end of the line starting at `i`: the next `\n`, or the end of `s`.
pub open spec fn line_end(s: Seq<char>, i: int) -> int
    decreases s.len() - i,
{
    if i < 0 || i >= s.len() || s[i] == '\n' {
        i
    } else {
        line_end(s, i + 1)
    }
}

/// The lines of `s` from `i` on: split at each `\n`, a `\r` just before it
/// dropped, and no empty line after a final `\n`.
pub open spec fn lines_from(s: Seq<char>, i: int) -> Seq<Seq<char>>
    decreases s.len() - i,
{
    if i < 0 || i >= s.len() {
        Seq::empty()
    } else {
        let e = line_end(s, i);
        if e < i || e > s.len() {
            Seq::empty()
        } else {
            let piece = s.subrange(i, e);
            let line = if e < s.len() && piece.len() > 0 && piece.last() == '\r' { piece.drop_last() } else { piece };
            if e >= s.len() {
                seq![line]
            } else {
                seq![line] + lines_from(s, e + 1)
            }
        }
    }
}

/// What `str::lines` yields.
pub open spec fn lines_of(s: Seq<char>) -> Seq<Seq<char>> {
    lines_from(s, 0)
}

/// Relies on `UnicodeSegmentation::unicode_word_indices`: the words of `s`
/// (UAX #29 segments holding a letter or digit) with their byte offsets.
#[verifier::external_body]
pub(crate) fn word_indices(s: &str) -> (r: Vec<(usize, String)>)
    ensures
        r@.map_values(|p: (usize, String)| (p.0, p.1@)) == word_indices_of(s@),
        words_in_order(r@.map_values(|p: (usize, String)| (p.0, p.1@)), s.len() as int),
{
    unicode_segmentation::UnicodeSegmentation::unicode_word_indices(s).map(|(i, w)| (i, w.to_string())).collect()
}

/// Relies on `str::to_lowercase`: the result depends on the characters alone.
#[verifier::external_body]
pub(crate) fn lowercase(s: &str) -> (r: String)
    ensures
        r@ == lower_of(s@),
{
    s.to_lowercase()
}

/// Relies on `rust_stemmers::Stemmer::stem` with the English algorithm.
#[verifier::external_body]
pub(crate) fn stem(s: &str) -> (r: String)
    ensures
        r@ == stem_of(s@),
{
    rust_stemmers::Stemmer::create(rust_stemmers::Algorithm::English).stem(s).into_owned()
}

/// Relies on `str::lines`: the lines of `s`, split at `\n` and `\r\n`, without
/// their line endings; a final line ending adds no empty line.
#[verifier::external_body]
pub(crate) fn lines(s: &str) -> (r: Vec<String>)
    ensures
        r@.map_values(|l: String| l@) == lines_of(s@),
{
    s.lines().map(|l| l.to_string()).collect()
}

/// How many buckets the dictionary's hash table has.
pub const BUCKETS: usize = 65536;

const HASH_MOD: u64 = 1_000_000_007;

/// A polynomial hash of a byte string.
pub open spec fn byte_hash(b: Seq<u8>) -> u64
    decreases b.len(),
{
    if b.len() == 0 {
        0
    } else {
        ((byte_hash(b.drop_last()) as int * 31 + b.last() as int) % 1_000_000_007) as u64
    }
}

/// The bucket a key is stored in.
pub open spec fn bucket_of(k: Seq<char>) -> int {
    (byte_hash(vstd::utf8::encode_utf8(k)) % 65536) as int
}

fn hash_str(s: &str) -> (r: usize)
    ensures
        r == bucket_of(s@),
        r < BUCKETS,
{
    let b = s.as_bytes();
    let mut h: u64 = 0;
    let mut i: usize = 0;
    while i < b.len()
        invariant
            0 <= i <= b@.len(),
            b@ == s.spec_bytes(),
            h == byte_hash(b@.subrange(0, i as int)),
            h < HASH_MOD,
        decreases b@.len() - i,
    {
        proof {
            let pre = b@.subrange(0, i + 1);
            assert(pre.drop_last() =~= b@.subrange(0, i as int));
            assert(pre.last() == b@[i as int]);
        }
        h = (h * 31 + b[i] as u64) % HASH_MOD;
        i = i + 1;
    }
    assert(b@.subrange(0, i as int) =~= b@);
    (h % 65536) as usize
}

/// A map from stems to term ids, kept in a hash table.
pub struct TermMap {
    buckets: Vec<Vec<(String, u32)>>,
    count: usize,
    kv: Ghost<Map<Seq<char>, u32>>,
}

impl View for TermMap {
    type V = Map<Seq<char>, u32>;

    closed spec fn view(&self) -> Map<Seq<char>, u32> {
        self.kv@
    }
}

impl TermMap {
    /// The number of stems interned.
    pub closed spec fn size(&self) -> nat {
        self.count as nat
    }

    pub closed spec fn wf(&self) -> bool {
        &&& self.buckets@.len() == BUCKETS
        &&& self.kv@.dom().finite()
        &&& self.kv@.len() == self.count
        &&& self.count < u32::MAX
        &&& forall|b: int, j: int| 0 <= b < self.buckets@.len() && 0 <= j < self.buckets@[b]@.len() ==> {
            let e = #[trigger] self.buckets@[b]@[j];
            &&& bucket_of(e.0@) == b
            &&& self.kv@.contains_key(e.0@)
            &&& self.kv@[e.0@] == e.1
        }
        &&& forall|b: int, i: int, j: int| 0 <= b < self.buckets@.len() && 0 <= i < j < self.buckets@[b]@.len()
            ==> (#[trigger] self.buckets@[b]@[i]).0@ != (#[trigger] self.buckets@[b]@[j]).0@
        &&& forall|k: Seq<char>| #[trigger] self.kv@.contains_key(k) ==> exists|j: int|
            0 <= j < self.buckets@[bucket_of(k)]@.len() && (#[trigger] self.buckets@[bucket_of(k)]@[j]).0@ == k
        &&& forall|k: Seq<char>| #[trigger] self.kv@.contains_key(k) ==> 1 <= self.kv@[k] <= self.count
        &&& forall|k1: Seq<char>, k2: Seq<char>| #[trigger] self.kv@.contains_key(k1) && #[trigger] self.kv@.contains_key(k2)
            && k1 != k2 ==> self.kv@[k1] != self.kv@[k2]
    }

    pub fn new() -> (r: TermMap)
        ensures
            r.wf(),
            r@ == Map::<Seq<char>, u32>::empty(),
            r.size() == 0,
    {
        let mut buckets: Vec<Vec<(String, u32)>> = Vec::new();
        let mut i: usize = 0;
        while i < BUCKETS
            invariant
                0 <= i <= BUCKETS,
                buckets@.len() == i,
                forall|b: int| 0 <= b < i ==> (#[trigger] buckets@[b])@.len() == 0,
            decreases BUCKETS - i,
        {
            buckets.push(Vec::new());
            i = i + 1;
        }
        TermMap { buckets, count: 0, kv: Ghost(Map::empty()) }
    }

    /// The id of a stem, if it was interned.
    pub fn get(&self, key: &str) -> (r: Option<u32>)
        requires
            self.wf(),
        ensures
            r == if self@.contains_key(key@) { Some(self@[key@]) } else { None::<u32> },
    {
        let b = hash_str(key);
        let owned = key.to_owned();
        let bucket = &self.buckets[b];
        let mut j: usize = 0;
        while j < bucket.len()
            invariant
                self.wf(),
                b == bucket_of(key@),
                owned@ == key@,
                bucket@ == self.buckets@[b as int]@,
                0 <= j <= bucket@.len(),
                forall|q: int| 0 <= q < j ==> (#[trigger] bucket@[q]).0@ != key@,
            decreases bucket@.len() - j,
        {
            let e = &bucket[j];
            if e.0 == owned {
                proof {
                    assert(self.buckets@[b as int]@[j as int] == *e);
                }
                return Some(e.1);
            }
            j = j + 1;
        }
        proof {
            if self@.contains_key(key@) {
                let q = choose|q: int| 0 <= q < self.buckets@[bucket_of(key@)]@.len() && (#[trigger] self.buckets@[bucket_of(key@)]@[q]).0@ == key@;
                assert(bucket@[q].0@ == key@);
            }
        }
        None
    }

    /// The id of the stem `key`, interned with the next id if it is new.
    /// `None` when the dictionary has no id left.
    pub fn intern_stem(&mut self, key: String) -> (r: Option<u32>)
        requires
            old(self).wf(),
        ensures
            final(self).wf(),
            old(self)@.contains_key(key@) ==> r == Some(old(self)@[key@]) && final(self)@ == old(self)@
                && final(self).size() == old(self).size(),
            !old(self)@.contains_key(key@) && old(self).size() + 2 < u32::MAX ==> r == Some((old(self).size() + 1) as u32)
                && final(self)@ == old(self)@.insert(key@, (old(self).size() + 1) as u32)
                && final(self).size() == old(self).size() + 1,
            !old(self)@.contains_key(key@) && old(self).size() + 2 >= u32::MAX ==> r is None && final(self)@ == old(self)@,
    {
        match self.get(key.as_str()) {
            Some(id) => Some(id),
            None => {
                if self.count >= 0xFFFF_FFFD {
                    return None;
                }
                let id = (self.count + 1) as u32;
                let b = hash_str(key.as_str());
                let ghost k = key@;
                let ghost old_kv = self.kv@;
                let ghost old_buckets = self.buckets@;
                self.buckets[b].push((key, id));
                proof {
                    assert(self.buckets@[b as int]@ == old_buckets[b as int]@.push((key, id)));
                }
                self.count = self.count + 1;
                self.kv = Ghost(old_kv.insert(k, id));
                proof {
                    assert forall|bb: int, j: int| 0 <= bb < self.buckets@.len() && 0 <= j < self.buckets@[bb]@.len() implies {
                        let e = #[trigger] self.buckets@[bb]@[j];
                        &&& bucket_of(e.0@) == bb
                        &&& self.kv@.contains_key(e.0@)
                        &&& self.kv@[e.0@] == e.1
                    } by {
                        if bb != b || j < old_buckets[bb]@.len() {
                            assert(self.buckets@[bb]@[j] == old_buckets[bb]@[j]);
                        }
                    }
                    assert forall|bb: int, i: int, j: int| 0 <= bb < self.buckets@.len() && 0 <= i < j < self.buckets@[bb]@.len()
                        implies (#[trigger] self.buckets@[bb]@[i]).0@ != (#[trigger] self.buckets@[bb]@[j]).0@ by {
                        if bb != b || j < old_buckets[bb]@.len() {
                            assert(self.buckets@[bb]@[j] == old_buckets[bb]@[j]);
                            assert(self.buckets@[bb]@[i] == old_buckets[bb]@[i]);
                        } else {
                            assert(self.buckets@[bb]@[i] == old_buckets[bb]@[i]);
                            assert(old_kv.contains_key(old_buckets[bb]@[i].0@));
                        }
                    }
                    assert forall|kk: Seq<char>| #[trigger] self.kv@.contains_key(kk) implies exists|j: int|
                        0 <= j < self.buckets@[bucket_of(kk)]@.len() && (#[trigger] self.buckets@[bucket_of(kk)]@[j]).0@ == kk by {
                        if kk == k {
                            let j = old_buckets[b as int]@.len() as int;
                            assert(self.buckets@[bucket_of(kk)]@[j].0@ == kk);
                        } else {
                            let j = choose|j: int| 0 <= j < old_buckets[bucket_of(kk)]@.len() && (#[trigger] old_buckets[bucket_of(kk)]@[j]).0@ == kk;
                            assert(self.buckets@[bucket_of(kk)]@[j] == old_buckets[bucket_of(kk)]@[j]);
                        }
                    }
                    assert(self.kv@.len() == self.count);
                }
                Some(id)
            },
        }
    }

    /// Lowercased and stemmed, `term`'s id; interned if new.
    pub fn intern(&mut self, term: &str) -> (r: Option<u32>)
        requires
            old(self).wf(),
        ensures
            final(self).wf(),
            ({
                let k = stem_of(term@);
                &&& old(self)@.contains_key(k) ==> r == Some(old(self)@[k]) && final(self)@ == old(self)@
                    && final(self).size() == old(self).size()
                &&& !old(self)@.contains_key(k) && old(self).size() + 2 < u32::MAX ==> r == Some((old(self).size() + 1) as u32)
                    && final(self)@ == old(self)@.insert(k, (old(self).size() + 1) as u32)
                    && final(self).size() == old(self).size() + 1
                &&& !old(self)@.contains_key(k) && old(self).size() + 2 >= u32::MAX ==> r is None && final(self)@ == old(self)@
            }),
    {
        let stemmed = stem(term);
        self.intern_stem(stemmed)
    }
}

broadcast use vstd::std_specs::btree::group_btree_axioms, vstd::laws_cmp::group_laws_cmp;

/// The map from each term to its ascending positions in `terms`.
fn positions_by_value(terms: &Vec<u32>) -> (r: BTreeMap<u32, Vec<usize>>)
    ensures
        forall|t: u32| #[trigger] r@.contains_key(t) ==> r@[t]@ == positions_of(terms@, t),
        forall|t: u32| !r@.contains_key(t) ==> positions_of(terms@, t) == Seq::<usize>::empty(),
        forall|t: u32| #[trigger] r@.contains_key(t) ==> terms@.contains(t),
{
    let mut map: BTreeMap<u32, Vec<usize>> = BTreeMap::new();
    let mut idx: usize = 0;
    while idx < terms.len()
        invariant
            0 <= idx <= terms@.len(),
            forall|t: u32| #[trigger] map@.contains_key(t) ==> map@[t]@ == positions_of(terms@.subrange(0, idx as int), t),
            forall|t: u32| !map@.contains_key(t) ==> positions_of(terms@.subrange(0, idx as int), t) == Seq::<usize>::empty(),
            forall|t: u32| #[trigger] map@.contains_key(t) ==> exists|q: int| 0 <= q < idx && terms@[q] == t,
        decreases terms@.len() - idx,
    {
        let t = terms[idx];
        let ghost pre = terms@.subrange(0, idx as int);
        let ghost cur = terms@.subrange(0, idx + 1);
        proof {
            assert(cur.subrange(0, idx as int) =~= pre);
            assert(cur[idx as int] == t);
        }
        let mut v = match map.remove(&t) {
            Some(v) => v,
            None => Vec::new(),
        };
        v.push(idx);
        map.insert(t, v);
        proof {
            assert forall|u: u32| #[trigger] map@.contains_key(u) implies map@[u]@ == positions_of(cur, u) by {
                assert(positions_of(cur, u) == if cur[idx as int] == u { positions_of(pre, u).push(idx) } else { positions_of(pre, u) });
            }
            assert forall|u: u32| #[trigger] map@.contains_key(u) implies exists|q: int| 0 <= q < idx + 1 && terms@[q] == u by {
                if u != t {
                    let q = choose|q: int| 0 <= q < idx && terms@[q] == u;
                    assert(0 <= q < idx + 1 && terms@[q] == u);
                } else {
                    assert(terms@[idx as int] == u);
                }
            }
            assert forall|u: u32| !map@.contains_key(u) implies positions_of(cur, u) == Seq::<usize>::empty() by {
                assert(positions_of(cur, u) == if cur[idx as int] == u { positions_of(pre, u).push(idx) } else { positions_of(pre, u) });
            }
        }
        idx = idx + 1;
    }
    assert(terms@.subrange(0, idx as int) =~= terms@);
    assert forall|t: u32| #[trigger] map@.contains_key(t) implies terms@.contains(t) by {
        let q = choose|q: int| 0 <= q < idx && terms@[q] == t;
    }
    map
}

/// A word's length in bytes.
pub open spec fn word_len(w: Seq<char>) -> int {
    (vstd::utf8::encode_utf8(w).len() as usize) as int
}

/// Words given with their byte offsets lie inside a text of `len` bytes,
/// each ending at or before the start of the next.
pub open spec fn words_in_order(ws: Seq<(usize, Seq<char>)>, len: int) -> bool {
    &&& forall|i: int| 0 <= i < ws.len() ==> (#[trigger] ws[i]).0 + word_len(ws[i].1) <= len
    &&& forall|i: int, j: int| 0 <= i < j < ws.len() ==> (#[trigger] ws[i]).0 + word_len(ws[i].1) <= (#[trigger] ws[j]).0
}

/// The token of a word.
pub open spec fn token_of(p: (usize, Seq<char>)) -> Token {
    CopyableRange { start: p.0, end: (p.0 + word_len(p.1)) as usize }
}

/// The dictionary key of a word: its lowercased stem.
pub open spec fn term_key(w: Seq<char>) -> Seq<char> {
    stem_of(lower_of(w))
}

/// `sentence` is line `line` cut into words, with its terms' ids taken
/// from dictionary `m`.
pub open spec fn sentence_of_line<SM: SentenceMetadata>(m: Map<Seq<char>, u32>, line: Seq<char>, sentence: Sentence<SM>) -> bool {
    let kept = word_indices_of(line);
    &&& sentence.wf()
    &&& sentence.text@ == line
    &&& sentence.metadata == SM::of_line(line)
    &&& sentence.tokens@ == kept.map_values(|p: (usize, Seq<char>)| token_of(p))
    &&& sentence.terms@ == word_terms(m, kept)
    &&& forall|i: int| 0 <= i < kept.len() ==> m.contains_key(term_key(#[trigger] kept[i].1))
}

/// How many words the lines hold in all.
pub open spec fn total_words(lines: Seq<Seq<char>>) -> int
    decreases lines.len(),
{
    if lines.len() == 0 {
        0
    } else {
        total_words(lines.drop_last()) + word_indices_of(lines.last()).len()
    }
}

/// The first lines hold no more words than all of them.
pub proof fn lemma_total_words_prefix(lines: Seq<Seq<char>>, i: int)
    requires
        0 <= i <= lines.len(),
    ensures
        0 <= total_words(lines.subrange(0, i)) <= total_words(lines),
    decreases lines.len(),
{
    if i < lines.len() {
        assert(lines.drop_last().subrange(0, i) =~= lines.subrange(0, i));
        lemma_total_words_prefix(lines.drop_last(), i);
    } else {
        assert(lines.subrange(0, i) =~= lines);
        if lines.len() > 0 {
            lemma_total_words_prefix(lines.drop_last(), lines.len() - 1);
            assert(lines.drop_last().subrange(0, lines.len() - 1) =~= lines.drop_last());
        }
    }
}

/// A line cut under a dictionary is cut the same under any larger one.
pub proof fn lemma_sentence_of_line_grows<SM: SentenceMetadata>(m: Map<Seq<char>, u32>, m2: Map<Seq<char>, u32>, line: Seq<char>, sentence: Sentence<SM>)
    requires
        sentence_of_line(m, line, sentence),
        forall|k: Seq<char>| #[trigger] m.contains_key(k) ==> m2.contains_key(k) && m2[k] == m[k],
    ensures
        sentence_of_line(m2, line, sentence),
{
    let kept = word_indices_of(line);
    assert forall|i: int| 0 <= i < kept.len() implies #[trigger] word_terms(m2, kept)[i] == word_terms(m, kept)[i] by {
        assert(m.contains_key(term_key(kept[i].1)));
    }
    assert(word_terms(m2, kept) =~= word_terms(m, kept));
    assert forall|i: int| 0 <= i < kept.len() implies m2.contains_key(term_key(#[trigger] kept[i].1)) by {
        assert(m.contains_key(term_key(kept[i].1)));
    }
}

/// `t` is the id of some stem in dictionary `m`.
pub open spec fn is_term_id(m: Map<Seq<char>, u32>, t: u32) -> bool {
    exists|k: Seq<char>| #[trigger] m.contains_key(k) && m[k] == t
}

/// The ids of keys under dictionary `m`.
pub open spec fn key_terms(m: Map<Seq<char>, u32>, keys: Seq<Seq<char>>) -> Seq<u32> {
    keys.map_values(|k: Seq<char>| m[k])
}

/// `sentence` is line `line` cut into the words `ws` (with offsets), whose
/// dictionary keys are `keys`, with ids taken from dictionary `m`.
pub open spec fn sentence_built<SM: SentenceMetadata>(
    m: Map<Seq<char>, u32>,
    line: Seq<char>,
    ws: Seq<(usize, Seq<char>)>,
    keys: Seq<Seq<char>>,
    sentence: Sentence<SM>,
) -> bool {
    &&& sentence.wf()
    &&& sentence.text@ == line
    &&& sentence.metadata == SM::of_line(line)
    &&& sentence.tokens@ == ws.map_values(|p: (usize, Seq<char>)| token_of(p))
    &&& sentence.terms@ == key_terms(m, keys)
    &&& forall|i: int| 0 <= i < keys.len() ==> m.contains_key(#[trigger] keys[i])
}

/// The dictionary key of each word: its lowercased stem.
fn word_keys(words: &Vec<(usize, String)>) -> (r: Vec<String>)
    ensures
        r@.len() == words@.len(),
        forall|i: int| 0 <= i < r@.len() ==> (#[trigger] r@[i])@ == term_key(words@[i].1@),
{
    let mut out: Vec<String> = Vec::new();
    let mut i: usize = 0;
    while i < words.len()
        invariant
            0 <= i <= words@.len(),
            out@.len() == i,
            forall|j: int| 0 <= j < i ==> (#[trigger] out@[j])@ == term_key(words@[j].1@),
        decreases words@.len() - i,
    {
        let lower = lowercase(words[i].1.as_str());
        let key = stem(lower.as_str());
        out.push(key);
        i = i + 1;
    }
    out
}

/// The term ids of words under dictionary `m`.
pub open spec fn word_terms(m: Map<Seq<char>, u32>, ws: Seq<(usize, Seq<char>)>) -> Seq<u32> {
    ws.map_values(|p: (usize, Seq<char>)| m[term_key(p.1)])
}

impl TermMap {
    /// Builds the sentence of line `s` from its words (with byte offsets, in
    /// order) and each word's dictionary key, interning the keys. `None`
    /// when the dictionary runs out of ids.
    pub fn sentence_from_words<SM: SentenceMetadata>(
        &mut self,
        s: &str,
        words: &Vec<(usize, String)>,
        keys: &Vec<String>,
    ) -> (r: Option<Sentence<SM>>)
        requires
            old(self).wf(),
            words_in_order(words@.map_values(|p: (usize, String)| (p.0, p.1@)), s.len() as int),
            keys@.len() == words@.len(),
        ensures
            final(self).wf(),
            forall|k: Seq<char>| #[trigger] old(self)@.contains_key(k) ==> final(self)@.contains_key(k) && final(self)@[k] == old(self)@[k],
            final(self).size() <= old(self).size() + words@.len(),
            old(self).size() + words@.len() + 2 < u32::MAX ==> r is Some,
            r matches Some(sentence) ==> sentence_built(final(self)@, s@, words@.map_values(|p: (usize, String)| (p.0, p.1@)),
                keys@.map_values(|k: String| k@), sentence),
    {
        let ghost ws = words@.map_values(|p: (usize, String)| (p.0, p.1@));
        let ghost ks = keys@.map_values(|k: String| k@);
        let text = s.to_owned();
        let text_len = s.len();
        let mut tokens: Vec<Token> = Vec::new();
        let mut terms: Vec<u32> = Vec::new();
        let mut prev_end: usize = 0;
        let mut k: usize = 0;
        while k < words.len()
            invariant
                self.wf(),
                forall|key: Seq<char>| #[trigger] old(self)@.contains_key(key) ==> self@.contains_key(key) && self@[key] == old(self)@[key],
                self.size() <= old(self).size() + k,
                ws == words@.map_values(|p: (usize, String)| (p.0, p.1@)),
                ks == keys@.map_values(|k: String| k@),
                words@.len() == ws.len(),
                keys@.len() == ws.len(),
                words_in_order(ws, text_len as int),
                text@ == s@,
                text_len == s.len(),
                0 <= k <= words@.len(),
                tokens@.len() == terms@.len(),
                prev_end <= text_len,
                k < ws.len() ==> prev_end <= ws[k as int].0,
                forall|i: int| 0 <= i < tokens@.len() ==> (#[trigger] tokens@[i]).start <= tokens@[i].end
                    && tokens@[i].end <= prev_end,
                forall|i: int, j: int| 0 <= i < j < tokens@.len() ==> (#[trigger] tokens@[i]).end <= (#[trigger] tokens@[j]).start,
                tokens@ == ws.subrange(0, k as int).map_values(|p: (usize, Seq<char>)| token_of(p)),
                terms@ == key_terms(self@, ks.subrange(0, k as int)),
                forall|i: int| 0 <= i < k ==> self@.contains_key(#[trigger] ks[i]),
            decreases words@.len() - k,
        {
            let start = words[k].0;
            let wl = words[k].1.as_str().len();
            proof {
                assert(ws[k as int] == (words@[k as int].0, words@[k as int].1@));
                assert(start + wl <= text_len);
                if k + 1 < ws.len() {
                    assert(ws[k as int].0 + word_len(ws[k as int].1) <= ws[k + 1].0);
                }
            }
            let key = keys[k].clone();
            let ghost before = self@;
            let term = match self.intern_stem(key) {
                Some(t) => t,
                None => {
                    return None;
                },
            };
            let end = start + wl;
            let ghost old_terms = terms@;
            let ghost old_done = ws.subrange(0, k as int);
            let ghost old_keys = ks.subrange(0, k as int);
            tokens.push(CopyableRange { start, end });
            terms.push(term);
            proof {
                let p = ws[k as int];
                let done = ws.subrange(0, k + 1);
                let dk = ks.subrange(0, k + 1);
                assert(done =~= old_done.push(p));
                assert(dk =~= old_keys.push(ks[k as int]));
                assert(ks[k as int] == keys@[k as int]@);
                assert(tokens@ =~= done.map_values(|p: (usize, Seq<char>)| token_of(p)));
                assert forall|i: int| 0 <= i < k + 1 implies self@.contains_key(#[trigger] ks[i]) by {
                    if i < k {
                        assert(before.contains_key(ks[i]));
                    }
                }
                assert forall|i: int| 0 <= i < dk.len() implies #[trigger] key_terms(self@, dk)[i] == terms@[i] by {
                    if i < old_keys.len() {
                        assert(dk[i] == old_keys[i]);
                        assert(before.contains_key(ks[i]));
                        assert(old_terms[i] == key_terms(before, old_keys)[i]);
                    }
                }
                assert(terms@ =~= key_terms(self@, dk));
            }
            prev_end = end;
            k = k + 1;
        }
        proof {
            assert(ws.subrange(0, k as int) =~= ws);
            assert(ks.subrange(0, k as int) =~= ks);
        }
        let terms_by_value = positions_by_value(&terms);
        let metadata = SM::for_line(s);
        let sentence = Sentence { text, tokens, terms_by_value, terms, metadata };
        proof {
            assert(vstd::utf8::encode_utf8(sentence.text@) == s.spec_bytes());
            assert forall|t: u32| #[trigger] sentence.stored_positions(t) == positions_of(sentence.terms@, t) by {
            }
        }
        Some(sentence)
    }

    /// Cuts a line into words, interning each word's lowercased stem. `None`
    /// when the dictionary runs out of ids.
    pub fn tokenize_sentence<SM: SentenceMetadata>(&mut self, s: &str) -> (r: Option<Sentence<SM>>)
        requires
            old(self).wf(),
        ensures
            final(self).wf(),
            forall|k: Seq<char>| #[trigger] old(self)@.contains_key(k) ==> final(self)@.contains_key(k) && final(self)@[k] == old(self)@[k],
            final(self).size() <= old(self).size() + word_indices_of(s@).len(),
            old(self).size() + word_indices_of(s@).len() + 2 < u32::MAX ==> r is Some,
            r matches Some(sentence) ==> sentence_of_line(final(self)@, s@, sentence),
    {
        let words = word_indices(s);
        let keys = word_keys(&words);
        let ghost ws = word_indices_of(s@);
        let r = self.sentence_from_words(s, &words, &keys);
        proof {
            let ks = keys@.map_values(|k: String| k@);
            if r is Some {
                {
                    assert forall|i: int| 0 <= i < ws.len() implies #[trigger] key_terms(self@, ks)[i] == word_terms(self@, ws)[i] by {
                        assert(ks[i] == term_key(ws[i].1));
                    }
                    assert(key_terms(self@, ks) =~= word_terms(self@, ws));
                    assert forall|i: int| 0 <= i < ws.len() implies self@.contains_key(term_key(#[trigger] ws[i].1)) by {
                        assert(ks[i] == term_key(ws[i].1));
                        assert(self@.contains_key(ks[i]));
                    }
                }
            }
        }
        r
    }

    /// Cuts a document into lines, each tokenized as one sentence.
    pub fn tokenize_all<SM: SentenceMetadata>(&mut self, doc: &str) -> (r: Option<Vec<Sentence<SM>>>)
        requires
            old(self).wf(),
        ensures
            final(self).wf(),
            forall|k: Seq<char>| #[trigger] old(self)@.contains_key(k) ==> final(self)@.contains_key(k) && final(self)@[k] == old(self)@[k],
            final(self).size() <= old(self).size() + total_words(lines_of(doc@)),
            old(self).size() + total_words(lines_of(doc@)) + 2 < u32::MAX ==> r is Some,
            r matches Some(v) ==> v@.len() == lines_of(doc@).len()
                && forall|i: int| 0 <= i < v@.len() ==> sentence_of_line(final(self)@, lines_of(doc@)[i], #[trigger] v@[i]),
    {
        let ls = lines(doc);
        let mut out: Vec<Sentence<SM>> = Vec::new();
        let mut i: usize = 0;
        while i < ls.len()
            invariant
                self.wf(),
                forall|k: Seq<char>| #[trigger] old(self)@.contains_key(k) ==> self@.contains_key(k) && self@[k] == old(self)@[k],
                ls@.map_values(|l: String| l@) == lines_of(doc@),
                0 <= i <= ls@.len(),
                ls@.len() == lines_of(doc@).len(),
                self.size() <= old(self).size() + total_words(lines_of(doc@).subrange(0, i as int)),
                out@.len() == i,
                forall|j: int| 0 <= j < i ==> sentence_of_line(self@, lines_of(doc@)[j], #[trigger] out@[j]),
            decreases ls@.len() - i,
        {
            proof {
                assert(lines_of(doc@)[i as int] == ls@[i as int]@);
            }
            let ghost before = self@;
            let ghost before_out = out@;
            proof {
                let lines = lines_of(doc@);
                let pre = lines.subrange(0, i + 1);
                assert(pre.drop_last() =~= lines.subrange(0, i as int));
                assert(pre.last() == lines[i as int]);
                lemma_total_words_prefix(lines, i + 1);
            }
            match self.tokenize_sentence::<SM>(ls[i].as_str()) {
                Some(s) => {
                    proof {
                        assert(sentence_of_line(self@, lines_of(doc@)[i as int], s));
                    }
                    out.push(s);
                    proof {
                        assert forall|j: int| 0 <= j < i + 1 implies sentence_of_line(self@, lines_of(doc@)[j], #[trigger] out@[j]) by {
                            if j < i {
                                assert(out@[j] == before_out[j]);
                                lemma_sentence_of_line_grows(before, self@, lines_of(doc@)[j], out@[j]);
                            }
                        }
                    }
                },
                None => {
                    return None;
                },
            }
            i = i + 1;
        }
        proof {
            assert(lines_of(doc@).subrange(0, i as int) =~= lines_of(doc@));
        }
        Some(out)
    }

    pub fn freeze(self) -> (r: FrozenTermMap)
        requires
            self.wf(),
        ensures
            r.wf(),
            r@ == self@,
    {
        FrozenTermMap { map: self }
    }
}

/// The dictionary once the corpus is built: lookups only.
pub struct FrozenTermMap {
    map: TermMap,
}

impl View for FrozenTermMap {
    type V = Map<Seq<char>, u32>;

    closed spec fn view(&self) -> Map<Seq<char>, u32> {
        self.map@
    }
}

/// The id a query word gets: that of its lowercased stem, or 0 if unknown.
pub open spec fn term_id(m: Map<Seq<char>, u32>, word: Seq<char>) -> u32 {
    let k = stem_of(lower_of(word));
    if m.contains_key(k) {
        m[k]
    } else {
        0
    }
}

/// The ids of the words of a phrase.
pub open spec fn phrase_terms(m: Map<Seq<char>, u32>, s: Seq<char>) -> Seq<u32> {
    word_indices_of(s).map_values(|p: (usize, Seq<char>)| term_id(m, p.1))
}

impl FrozenTermMap {
    pub closed spec fn wf(&self) -> bool {
        self.map.wf()
    }

    /// Term ids are exactly `1..=M` for `M` distinct stems: each stem has an
    /// id in that range and no two stems share one.
    pub proof fn lemma_ids_dense(&self)
        requires
            self.wf(),
        ensures
            self@.dom().finite(),
            forall|k: Seq<char>| #[trigger] self@.contains_key(k) ==> 1 <= self@[k] <= self@.len(),
            forall|k1: Seq<char>, k2: Seq<char>| #[trigger] self@.contains_key(k1) && #[trigger] self@.contains_key(k2)
                && k1 != k2 ==> self@[k1] != self@[k2],
    {
    }

    /// The id of a dictionary key (a lowercased stem), if the corpus has it.
    pub fn term_of_key(&self, key: &str) -> (r: Option<u32>)
        requires
            self.wf(),
        ensures
            r == if self@.contains_key(key@) { Some(self@[key@]) } else { None::<u32> },
    {
        self.map.get(key)
    }

    /// The id of a word's lowercased stem, if the corpus has it.
    pub fn term(&self, term: &str) -> (r: Option<u32>)
        requires
            self.wf(),
        ensures
            r == if self@.contains_key(stem_of(lower_of(term@))) {
                Some(self@[stem_of(lower_of(term@))])
            } else {
                None::<u32>
            },
    {
        let lower = lowercase(term);
        let stemmed = stem(lower.as_str());
        self.term_of_key(stemmed.as_str())
    }

    /// The ids of dictionary keys; an unknown key gets 0.
    pub fn key_ids(&self, keys: &Vec<String>) -> (r: Vec<u32>)
        requires
            self.wf(),
        ensures
            r@.len() == keys@.len(),
            forall|i: int| 0 <= i < keys@.len() ==> #[trigger] r@[i] == if self@.contains_key(keys@[i]@) {
                self@[keys@[i]@]
            } else {
                0
            },
    {
        let mut out: Vec<u32> = Vec::new();
        let mut i: usize = 0;
        while i < keys.len()
            invariant
                self.wf(),
                0 <= i <= keys@.len(),
                out@.len() == i,
                forall|j: int| 0 <= j < i ==> #[trigger] out@[j] == if self@.contains_key(keys@[j]@) {
                    self@[keys@[j]@]
                } else {
                    0
                },
            decreases keys@.len() - i,
        {
            let id = match self.term_of_key(keys[i].as_str()) {
                Some(t) => t,
                None => 0,
            };
            out.push(id);
            i = i + 1;
        }
        out
    }

    /// The ids of the words of a phrase; an unknown word gets 0, so that the
    /// phrase matches nothing.
    pub fn tokenize_phrase(&self, query: &str) -> (r: Vec<u32>)
        requires
            self.wf(),
        ensures
            r@ == phrase_terms(self@, query@),
    {
        let words = word_indices(query);
        let keys = word_keys(&words);
        let ghost ws = word_indices_of(query@);
        let out = self.key_ids(&keys);
        proof {
            assert forall|i: int| 0 <= i < ws.len() implies #[trigger] out@[i] == phrase_terms(self@, query@)[i] by {
                assert(ws[i] == (words@[i].0, words@[i].1@));
                assert(keys@[i]@ == term_key(ws[i].1));
            }
            assert(out@ =~= phrase_terms(self@, query@));
        }
        out
    }
}

} // verus!
