//! Highlighting exact phrase occurrences: the phrase's term ids and the
//! sentence's term ids are packed into bytes and searched as a substring.
use vstd::prelude::*;
use crate::sentence::{CopyableRange, Sentence, SentenceRange};

verus! {

/// Byte `k` (0 = least significant) of `x`.
pub open spec fn byte_of(x: u32, k: int) -> u8 {
    ((x >> ((8 * k) as u32)) & 0xff) as u8
}

/// The terms packed as little-endian 4-byte words.
pub open spec fn packed(terms: Seq<u32>) -> Seq<u8> {
    Seq::new((terms.len() * 4) as nat, |i: int| byte_of(terms[i / 4], i % 4))
}

/// `needle` occurs in `hay` at byte `i`.
pub open spec fn occurs_at(hay: Seq<u8>, needle: Seq<u8>, i: int) -> bool {
    &&& 0 <= i
    &&& i + needle.len() <= hay.len()
    &&& hay.subrange(i, i + needle.len()) == needle
}

/// `phrase` occurs in `terms` starting at term `k`.
pub open spec fn phrase_at(terms: Seq<u32>, phrase: Seq<u32>, k: int) -> bool {
    &&& 0 <= k
    &&& k + phrase.len() <= terms.len()
    &&& terms.subrange(k, k + phrase.len()) == phrase
}

/// The starts of the occurrences of a non-empty phrase at or after term `k`,
/// scanning left to right and resuming after each occurrence, so that the
/// occurrences found do not overlap.
pub open spec fn phrase_starts(terms: Seq<u32>, phrase: Seq<u32>, k: int) -> Seq<int>
    decreases terms.len() - k,
{
    if phrase.len() == 0 || k < 0 || k + phrase.len() > terms.len() {
        Seq::empty()
    } else if phrase_at(terms, phrase, k) {
        seq![k].add(phrase_starts(terms, phrase, k + phrase.len()))
    } else {
        phrase_starts(terms, phrase, k + 1)
    }
}

/// The range from the first to the last token of each occurrence.
pub open spec fn occurrence_ranges<SM>(s: &Sentence<SM>, len: int, starts: Seq<int>) -> Seq<SentenceRange> {
    starts.map_values(
        |k: int| CopyableRange { start: s.tokens@[k].start, end: s.tokens@[k + len - 1].end },
    )
}

/// The highlights of a phrase in a sentence.
pub open spec fn phrase_ranges<SM>(phrase: Seq<u32>, s: &Sentence<SM>) -> Seq<SentenceRange> {
    occurrence_ranges(s, phrase.len() as int, phrase_starts(s.terms@, phrase, 0))
}

/// The starts found from `k` on are occurrences.
proof fn lemma_phrase_starts_occur(terms: Seq<u32>, phrase: Seq<u32>, k: int)
    ensures
        forall|q: int| 0 <= q < phrase_starts(terms, phrase, k).len() ==> phrase.len() > 0
            && phrase_at(terms, phrase, #[trigger] phrase_starts(terms, phrase, k)[q]),
    decreases terms.len() - k,
{
    if !(phrase.len() == 0 || k < 0 || k + phrase.len() > terms.len()) {
        if phrase_at(terms, phrase, k) {
            lemma_phrase_starts_occur(terms, phrase, k + phrase.len());
            let tail = phrase_starts(terms, phrase, k + phrase.len());
            assert(phrase_starts(terms, phrase, k) == seq![k].add(tail));
            assert forall|q: int| 0 <= q < phrase_starts(terms, phrase, k).len() implies phrase.len() > 0
                && phrase_at(terms, phrase, #[trigger] phrase_starts(terms, phrase, k)[q]) by {
                if q > 0 {
                    assert(phrase_starts(terms, phrase, k)[q] == tail[q - 1]);
                }
            }
        } else {
            lemma_phrase_starts_occur(terms, phrase, k + 1);
            assert(phrase_starts(terms, phrase, k) == phrase_starts(terms, phrase, k + 1));
        }
    }
}

/// Phrase highlights lie inside the sentence's text.
pub proof fn lemma_phrase_ranges_within<SM>(phrase: Seq<u32>, s: &Sentence<SM>)
    requires
        s.wf(),
    ensures
        crate::highlight::ranges_within(phrase_ranges(phrase, s), s.text_len() as nat),
{
    let starts = phrase_starts(s.terms@, phrase, 0);
    lemma_phrase_starts_occur(s.terms@, phrase, 0);
    let rs = phrase_ranges(phrase, s);
    assert forall|i: int| 0 <= i < rs.len() implies (#[trigger] rs[i]).start <= rs[i].end && rs[i].end <= s.text_len() by {
        let k = starts[i];
        assert(phrase_at(s.terms@, phrase, k));
        let e = k + phrase.len() - 1;
        assert(s.tokens@[k].start <= s.tokens@[k].end);
        if e > k {
            assert(s.tokens@[k].end <= s.tokens@[e].start);
        }
        assert(s.tokens@[e].start <= s.tokens@[e].end);
    }
}

/// Relies on `memchr::memmem::find`: the position of the first occurrence of
/// `needle` in `haystack`, or `None` when there is none.
#[verifier::external_body]
fn find_bytes(haystack: &[u8], needle: &[u8]) -> (r: Option<usize>)
    ensures
        match r {
            Some(i) => occurs_at(haystack@, needle@, i as int)
                && forall|j: int| 0 <= j < i ==> !occurs_at(haystack@, needle@, j),
            None => forall|j: int| !occurs_at(haystack@, needle@, j),
        },
{
    memchr::memmem::find(haystack, needle)
}

proof fn lemma_div4(a: int, r: int)
    requires
        a >= 0,
        0 <= r < 4,
    ensures
        (4 * a + r) / 4 == a,
        (4 * a + r) % 4 == r,
{
    assert((4 * a + r) / 4 == a) by (nonlinear_arith)
        requires a >= 0, 0 <= r < 4;
    assert((4 * a + r) % 4 == r) by (nonlinear_arith)
        requires a >= 0, 0 <= r < 4;
}

proof fn lemma_byte_cast(a: u32, b: u32)
    requires
        (a & 0xff) as u8 == (b & 0xff) as u8,
    ensures
        a & 0xff == b & 0xff,
{
    assert(a & 0xff == b & 0xff) by (bit_vector)
        requires (a & 0xff) as u8 == (b & 0xff) as u8;
}

proof fn lemma_bytes_determine(x: u32, y: u32)
    requires
        byte_of(x, 0) == byte_of(y, 0),
        byte_of(x, 1) == byte_of(y, 1),
        byte_of(x, 2) == byte_of(y, 2),
        byte_of(x, 3) == byte_of(y, 3),
    ensures
        x == y,
{
    lemma_byte_cast(x >> 0u32, y >> 0u32);
    lemma_byte_cast(x >> 8u32, y >> 8u32);
    lemma_byte_cast(x >> 16u32, y >> 16u32);
    lemma_byte_cast(x >> 24u32, y >> 24u32);
    assert(x == y) by (bit_vector)
        requires
            ((x >> 0u32) & 0xff) == ((y >> 0u32) & 0xff),
            ((x >> 8u32) & 0xff) == ((y >> 8u32) & 0xff),
            ((x >> 16u32) & 0xff) == ((y >> 16u32) & 0xff),
            ((x >> 24u32) & 0xff) == ((y >> 24u32) & 0xff);
}

/// A packed phrase occurs at byte `4 * k` exactly when the phrase occurs at
/// term `k`.
proof fn lemma_aligned_match(terms: Seq<u32>, phrase: Seq<u32>, k: int)
    requires
        k >= 0,
    ensures
        occurs_at(packed(terms), packed(phrase), 4 * k) <==> phrase_at(terms, phrase, k),
{
    let h = packed(terms);
    let n = packed(phrase);
    if phrase_at(terms, phrase, k) {
        assert forall|i: int| 0 <= i < n.len() implies h.subrange(4 * k, 4 * k + n.len())[i] == n[i] by {
            let m = i / 4;
            let r = i % 4;
            lemma_div4(m, r);
            lemma_div4(k + m, r);
            assert(4 * k + i == 4 * (k + m) + r);
            assert(terms[k + m] == terms.subrange(k, k + phrase.len())[m]);
        }
        assert(h.subrange(4 * k, 4 * k + n.len()) =~= n);
    }
    if occurs_at(h, n, 4 * k) {
        assert(k + phrase.len() <= terms.len());
        assert forall|m: int| 0 <= m < phrase.len() implies terms.subrange(k, k + phrase.len())[m] == phrase[m] by {
            assert forall|r: int| 0 <= r < 4 implies byte_of(terms[k + m], r) == byte_of(phrase[m], r) by {
                lemma_div4(m, r);
                lemma_div4(k + m, r);
                assert(h.subrange(4 * k, 4 * k + n.len())[4 * m + r] == n[4 * m + r]);
                assert(4 * k + (4 * m + r) == 4 * (k + m) + r);
            }
            lemma_bytes_determine(terms[k + m], phrase[m]);
        }
        assert(terms.subrange(k, k + phrase.len()) =~= phrase);
    }
}

/// Scanning from `k` reaches the first occurrence `j` directly when none
/// starts in between.
proof fn lemma_phrase_starts_skip(terms: Seq<u32>, phrase: Seq<u32>, k: int, j: int)
    requires
        0 <= k <= j,
        phrase.len() > 0,
        forall|q: int| k <= q < j ==> !phrase_at(terms, phrase, q),
    ensures
        phrase_starts(terms, phrase, k) == phrase_starts(terms, phrase, j),
    decreases j - k,
{
    if k < j {
        lemma_phrase_starts_skip(terms, phrase, k + 1, j);
        if k + phrase.len() > terms.len() {
            assert(phrase_starts(terms, phrase, k + 1) == Seq::<int>::empty());
        }
    }
}

fn pack_terms(terms: &[u32]) -> (r: Vec<u8>)
    ensures
        r@ == packed(terms@),
{
    let mut out: Vec<u8> = Vec::new();
    let mut i: usize = 0;
    while i < terms.len()
        invariant
            0 <= i <= terms@.len(),
            out@.len() == 4 * i,
            forall|b: int| 0 <= b < out@.len() ==> #[trigger] out@[b] == byte_of(terms@[b / 4], b % 4),
        decreases terms@.len() - i,
    {
        let x = terms[i];
        let ghost before = out@;
        out.push((x & 0xff) as u8);
        out.push(((x >> 8) & 0xff) as u8);
        out.push(((x >> 16) & 0xff) as u8);
        out.push(((x >> 24) & 0xff) as u8);
        proof {
            assert forall|b: int| 0 <= b < out@.len() implies #[trigger] out@[b] == byte_of(terms@[b / 4], b % 4) by {
                if b >= 4 * i {
                    let r = b - 4 * i;
                    lemma_div4(i as int, r);
                    assert(b == 4 * i + r);
                    assert((x >> 0u32) == x) by (bit_vector);
                }
            }
        }
        i = i + 1;
    }
    assert(out@ =~= packed(terms@));
    out
}

/// Finds the occurrences of a fixed phrase in sentences.
pub struct PhraseHighlighter {
    pub phrase: Vec<u32>,
    pub needle: Vec<u8>,
}

impl PhraseHighlighter {
    pub open spec fn wf(&self) -> bool {
        self.needle@ == packed(self.phrase@)
    }

    pub fn new(phrase: &[u32]) -> (r: PhraseHighlighter)
        ensures
            r.wf(),
            r.phrase@ == phrase@,
    {
        PhraseHighlighter { phrase: vstd::slice::slice_to_vec(phrase), needle: pack_terms(phrase) }
    }

    /// The range of each occurrence of the phrase, left to right, resuming
    /// after each occurrence. An empty phrase occurs nowhere.
    pub fn highlight<SM>(&self, sentence: &Sentence<SM>) -> (r: Vec<SentenceRange>)
        requires
            self.wf(),
            sentence.wf(),
        ensures
            r@ == phrase_ranges(self.phrase@, sentence),
    {
        let mut out: Vec<SentenceRange> = Vec::new();
        let plen = self.phrase.len();
        if plen == 0 {
            assert(phrase_starts(sentence.terms@, self.phrase@, 0) =~= Seq::<int>::empty());
            return out;
        }
        let hay = pack_terms(sentence.terms.as_slice());
        let n = sentence.terms.len();
        let hlen = hay.len();
        let ghost phrase = self.phrase@;
        let ghost terms = sentence.terms@;
        let mut k: usize = 0;
        while k < n
            invariant
                plen == phrase.len() > 0,
                n == terms.len(),
                terms == sentence.terms@,
                phrase == self.phrase@,
                self.wf(),
                sentence.wf(),
                hay@ == packed(terms),
                hlen == hay@.len(),
                k <= n,
                out@ + occurrence_ranges(sentence, plen as int, phrase_starts(terms, phrase, k as int))
                    == phrase_ranges(phrase, sentence),
            decreases n - k,
        {
            let base = 4 * k;
            let rest = vstd::slice::slice_subrange(hay.as_slice(), base, hay.len());
            let found = find_bytes(rest, self.needle.as_slice());
            match found {
                None => {
                    proof {
                        assert forall|q: int| k <= q implies !phrase_at(terms, phrase, q) by {
                            lemma_aligned_match(terms, phrase, q);
                            if occurs_at(hay@, self.needle@, 4 * q) {
                                assert(rest@.subrange(4 * q - base, 4 * q - base + self.needle@.len())
                                    =~= hay@.subrange(4 * q, 4 * q + self.needle@.len()));
                                assert(occurs_at(rest@, self.needle@, 4 * q - base));
                            }
                        }
                        lemma_phrase_starts_skip(terms, phrase, k as int, n as int);
                        assert(phrase_starts(terms, phrase, n as int) =~= Seq::<int>::empty());
                        assert(occurrence_ranges(sentence, plen as int, Seq::<int>::empty()) =~= Seq::<SentenceRange>::empty());
                        assert(out@ + Seq::<SentenceRange>::empty() =~= out@);
                    }
                    return out;
                },
                Some(q) => {
                    let p = base + q;
                    proof {
                        assert(hay@.subrange(p as int, p + self.needle@.len()) =~= rest@.subrange(q as int, q + self.needle@.len()));
                        assert forall|j: int| k <= j && 4 * j < p implies !phrase_at(terms, phrase, j) by {
                            lemma_aligned_match(terms, phrase, j);
                            if occurs_at(hay@, self.needle@, 4 * j) {
                                assert(rest@.subrange(4 * j - base, 4 * j - base + self.needle@.len())
                                    =~= hay@.subrange(4 * j, 4 * j + self.needle@.len()));
                                assert(occurs_at(rest@, self.needle@, 4 * j - base));
                            }
                        }
                    }
                    let j = p / 4;
                    if p % 4 == 0 {
                        proof {
                            assert(p == 4 * j);
                            lemma_aligned_match(terms, phrase, j as int);
                            lemma_phrase_starts_skip(terms, phrase, k as int, j as int);
                            assert(phrase_at(terms, phrase, j as int));
                        }
                        let start = sentence.tokens[j].start;
                        let end = sentence.tokens[j + plen - 1].end;
                        let range = CopyableRange { start, end };
                        let ghost tail = phrase_starts(terms, phrase, (j + plen) as int);
                        proof {
                            assert(phrase_starts(terms, phrase, j as int) == seq![j as int].add(tail));
                            assert(occurrence_ranges(sentence, plen as int, seq![j as int].add(tail))
                                =~= seq![range] + occurrence_ranges(sentence, plen as int, tail));
                        }
                        let ghost before = out@;
                        out.push(range);
                        assert(before + (seq![range] + occurrence_ranges(sentence, plen as int, tail))
                            =~= out@ + occurrence_ranges(sentence, plen as int, tail));
                        k = j + plen;
                    } else {
                        proof {
                            assert(4 * j < p);
                            lemma_phrase_starts_skip(terms, phrase, k as int, j + 1);
                        }
                        if j + 1 >= n {
                            proof {
                                lemma_phrase_starts_skip(terms, phrase, k as int, n as int);
                                assert(phrase_starts(terms, phrase, n as int) =~= Seq::<int>::empty());
                                assert(occurrence_ranges(sentence, plen as int, Seq::<int>::empty()) =~= Seq::<SentenceRange>::empty());
                                assert(out@ + Seq::<SentenceRange>::empty() =~= out@);
                            }
                            return out;
                        }
                        k = j + 1;
                    }
                },
            }
        }
        proof {
            assert(phrase_starts(terms, phrase, k as int) =~= Seq::<int>::empty());
            assert(occurrence_ranges(sentence, plen as int, Seq::<int>::empty()) =~= Seq::<SentenceRange>::empty());
            assert(out@ + Seq::<SentenceRange>::empty() =~= out@);
        }
        out
    }
}

} // verus!
