//! Posting lists: sorted lists of sentence ids, merged, searched and
//! filtered in place with tombstones.
use vstd::prelude::*;
use vstd::multiset::Multiset;
use crate::sentence::{SentenceId, id_key, id_le, id_lt, is_valid_id, zero_id, lemma_id_key_injective};

verus! {

broadcast use vstd::seq_lib::group_to_multiset_ensures;

/// Above this many ids on the larger side, a merge splits at a pivot.
pub const PARALLEL_MERGE_THRESH: usize = 32768;

/// Ascending, duplicates allowed.
pub open spec fn sorted(s: Seq<SentenceId>) -> bool {
    forall|i: int, j: int| 0 <= i < j < s.len() ==> id_le(#[trigger] s[i], #[trigger] s[j])
}

/// Strictly ascending: sorted without duplicates.
pub open spec fn strictly_sorted(s: Seq<SentenceId>) -> bool {
    forall|i: int, j: int| 0 <= i < j < s.len() ==> id_lt(#[trigger] s[i], #[trigger] s[j])
}

/// `m` is the sorted merge of `a` and `b`: sorted, and holding each id as
/// many times as `a` and `b` together.
pub open spec fn is_merge_of(m: Seq<SentenceId>, a: Seq<SentenceId>, b: Seq<SentenceId>) -> bool {
    &&& sorted(m)
    &&& m.to_multiset() == a.to_multiset().add(b.to_multiset())
}

/// The valid ids of `s` ascend (tombstones anywhere in between).
pub open spec fn valid_sorted(s: Seq<SentenceId>) -> bool {
    forall|i: int, j: int|
        0 <= i < j < s.len() && is_valid_id(#[trigger] s[i]) && is_valid_id(#[trigger] s[j]) ==> id_le(s[i], s[j])
}

/// The valid ids of `s` strictly ascend (tombstones anywhere in between).
pub open spec fn valid_strictly_sorted(s: Seq<SentenceId>) -> bool {
    forall|i: int, j: int|
        0 <= i < j < s.len() && is_valid_id(#[trigger] s[i]) && is_valid_id(#[trigger] s[j]) ==> id_lt(s[i], s[j])
}

/// `s` holds the valid id `id`.
pub open spec fn holds(s: Seq<SentenceId>, id: SentenceId) -> bool {
    is_valid_id(id) && s.contains(id)
}

/// The ids of `s` that are not the tombstone, in order.
pub open spec fn valid_only(s: Seq<SentenceId>) -> Seq<SentenceId> {
    s.filter(|id: SentenceId| is_valid_id(id))
}

proof fn lemma_sorted_subrange(s: Seq<SentenceId>, lo: int, hi: int)
    requires
        sorted(s),
        0 <= lo <= hi <= s.len(),
    ensures
        sorted(s.subrange(lo, hi)),
{
    let t = s.subrange(lo, hi);
    assert forall|i: int, j: int| 0 <= i < j < t.len() implies id_le(#[trigger] t[i], #[trigger] t[j]) by {
        assert(t[i] == s[lo + i] && t[j] == s[lo + j]);
    }
}

proof fn lemma_multiset_split(s: Seq<SentenceId>, lo: int, mid: int, hi: int)
    requires
        0 <= lo <= mid <= hi <= s.len(),
    ensures
        s.subrange(lo, hi).to_multiset() == s.subrange(lo, mid).to_multiset().add(s.subrange(mid, hi).to_multiset()),
{
    assert(s.subrange(lo, hi) =~= s.subrange(lo, mid) + s.subrange(mid, hi));
    vstd::seq_lib::lemma_multiset_commutative(s.subrange(lo, mid), s.subrange(mid, hi));
}

proof fn lemma_multiset_push_range(s: Seq<SentenceId>, lo: int, i: int)
    requires
        0 <= lo <= i < s.len(),
    ensures
        s.subrange(lo, i + 1).to_multiset() == s.subrange(lo, i).to_multiset().insert(s[i]),
{
    assert(s.subrange(lo, i + 1) =~= s.subrange(lo, i).push(s[i]));
}

proof fn lemma_empty_multiset()
    ensures
        Seq::<SentenceId>::empty().to_multiset() =~= Multiset::<SentenceId>::empty(),
        Multiset::<SentenceId>::empty().add(Multiset::<SentenceId>::empty()) =~= Multiset::<SentenceId>::empty(),
{
    assert forall|x: SentenceId| Seq::<SentenceId>::empty().to_multiset().count(x) == 0 by {
        assert(!Seq::<SentenceId>::empty().contains(x));
    }
}

/// The first position in `list[lo..hi]` whose id is not below `x`.
fn lower_bound(list: &[SentenceId], lo: usize, hi: usize, x: &SentenceId) -> (r: usize)
    requires
        lo <= hi <= list@.len(),
        sorted(list@),
    ensures
        lo <= r <= hi,
        forall|k: int| lo <= k < r ==> id_lt(#[trigger] list@[k], *x),
        forall|k: int| r <= k < hi ==> id_le(*x, #[trigger] list@[k]),
{
    let mut l = lo;
    let mut h = hi;
    while l < h
        invariant
            lo <= l <= h <= hi <= list@.len(),
            sorted(list@),
            forall|k: int| lo <= k < l ==> id_lt(#[trigger] list@[k], *x),
            forall|k: int| h <= k < hi ==> id_le(*x, #[trigger] list@[k]),
        decreases h - l,
    {
        let mid = l + (h - l) / 2;
        if list[mid].lt(x) {
            assert forall|k: int| lo <= k < mid + 1 implies id_lt(#[trigger] list@[k], *x) by {
                if k < mid {
                    assert(id_le(list@[k], list@[mid as int]));
                }
            }
            l = mid + 1;
        } else {
            assert forall|k: int| mid <= k < hi implies id_le(*x, #[trigger] list@[k]) by {
                if k > mid {
                    assert(id_le(list@[mid as int], list@[k]));
                }
            }
            h = mid;
        }
    }
    l
}

/// Binary search in a sorted list: `Ok` with a position of `id`, or `Err`
/// with the position where it would be inserted.
pub fn search_sorted(list: &[SentenceId], id: &SentenceId) -> (r: Result<usize, usize>)
    requires
        sorted(list@),
    ensures
        r is Ok <==> list@.contains(*id),
        r matches Ok(i) ==> i < list@.len() && list@[i as int] == *id,
        r matches Err(i) ==> i <= list@.len()
            && (forall|k: int| 0 <= k < i ==> id_lt(#[trigger] list@[k], *id))
            && (forall|k: int| i <= k < list@.len() ==> id_lt(*id, #[trigger] list@[k])),
{
    let i = lower_bound(list, 0, list.len(), id);
    if i < list.len() && list[i] == *id {
        Ok(i)
    } else {
        proof {
            assert forall|k: int| i <= k < list@.len() implies id_lt(*id, #[trigger] list@[k]) by {
                lemma_id_key_injective(*id, list@[k]);
                if k == i {
                } else {
                    assert(id_le(list@[i as int], list@[k]));
                }
            }
            assert(!list@.contains(*id)) by {
                if list@.contains(*id) {
                    let k = choose|k: int| 0 <= k < list@.len() && list@[k] == *id;
                    if k < i {
                        assert(id_lt(list@[k], *id));
                    } else {
                        assert(id_lt(*id, list@[k]));
                    }
                }
            }
        }
        Err(i)
    }
}

/// Two-pointer merge of `a[alo..ahi]` and `b[blo..bhi]`, appended to `out`.
fn scalar_merge(
    a: &[SentenceId],
    alo: usize,
    ahi: usize,
    b: &[SentenceId],
    blo: usize,
    bhi: usize,
    out: &mut Vec<SentenceId>,
)
    requires
        alo <= ahi <= a@.len(),
        blo <= bhi <= b@.len(),
        sorted(a@),
        sorted(b@),
    ensures
        final(out)@.len() == old(out)@.len() + (ahi - alo) + (bhi - blo),
        final(out)@.subrange(0, old(out)@.len() as int) == old(out)@,
        is_merge_of(
            final(out)@.subrange(old(out)@.len() as int, final(out)@.len() as int),
            a@.subrange(alo as int, ahi as int),
            b@.subrange(blo as int, bhi as int),
        ),
{
    let ghost start = out@.len() as int;
    let ghost prefix = out@;
    let mut i = alo;
    let mut j = blo;
    assert(out@.subrange(start, out@.len() as int) =~= Seq::<SentenceId>::empty());
    assert(a@.subrange(alo as int, alo as int) =~= Seq::<SentenceId>::empty());
    assert(b@.subrange(blo as int, blo as int) =~= Seq::<SentenceId>::empty());
    proof { lemma_empty_multiset(); }
    while i < ahi || j < bhi
        invariant
            alo <= i <= ahi <= a@.len(),
            blo <= j <= bhi <= b@.len(),
            sorted(a@),
            sorted(b@),
            0 <= start,
            out@.len() == start + (i - alo) + (j - blo),
            out@.subrange(0, start) == prefix,
            is_merge_of(
                out@.subrange(start, out@.len() as int),
                a@.subrange(alo as int, i as int),
                b@.subrange(blo as int, j as int),
            ),
            out@.len() > start && i < ahi ==> id_le(out@[out@.len() - 1], a@[i as int]),
            out@.len() > start && j < bhi ==> id_le(out@[out@.len() - 1], b@[j as int]),
        decreases (ahi - i) + (bhi - j),
    {
        let ghost m = out@.subrange(start, out@.len() as int);
        let take_a = if i < ahi {
            if j < bhi {
                a[i].lt(&b[j])
            } else {
                true
            }
        } else {
            false
        };
        let x = if take_a { a[i] } else { b[j] };
        let ghost before = out@;
        out.push(x);
        assert(out@ == before.push(x));
        assert(m == before.subrange(start, before.len() as int));
        assert forall|k: int| 0 <= k < m.len() implies out@.subrange(start, out@.len() as int)[k] == m.push(x)[k] by {
            assert(out@[start + k] == before[start + k]);
        }
        assert(out@.subrange(start, out@.len() as int) =~= m.push(x));
        let ghost m2 = m.push(x);
        assert(m.len() > 0 ==> id_le(m[m.len() - 1], x));
        assert forall|p: int, q: int| 0 <= p < q < m2.len() implies id_le(#[trigger] m2[p], #[trigger] m2[q]) by {
            if q == m2.len() - 1 {
                assert(m2[q] == x);
                assert(m2[p] == m[p]);
                if p < m.len() - 1 {
                    assert(id_le(m[p], m[m.len() - 1]));
                }
            } else {
                assert(m2[p] == m[p] && m2[q] == m[q]);
            }
        }
        assert(m2.to_multiset() == m.to_multiset().insert(x));
        if take_a {
            proof {
                lemma_multiset_push_range(a@, alo as int, i as int);
                assert(m2.to_multiset() =~= a@.subrange(alo as int, i + 1).to_multiset().add(b@.subrange(blo as int, j as int).to_multiset()));
                if i + 1 < ahi {
                    assert(id_le(a@[i as int], a@[i + 1]));
                }
            }
            i = i + 1;
        } else {
            proof {
                lemma_multiset_push_range(b@, blo as int, j as int);
                assert(m2.to_multiset() =~= a@.subrange(alo as int, i as int).to_multiset().add(b@.subrange(blo as int, j + 1).to_multiset()));
                if j + 1 < bhi {
                    assert(id_le(b@[j as int], b@[j + 1]));
                }
                if i < ahi {
                    lemma_id_key_injective(a@[i as int], b@[j as int]);
                }
            }
            j = j + 1;
        }
        assert(out@.subrange(0, start) =~= prefix);
    }
}

proof fn lemma_merge_members(m: Seq<SentenceId>, a: Seq<SentenceId>, b: Seq<SentenceId>, k: int)
    requires
        m.to_multiset() == a.to_multiset().add(b.to_multiset()),
        0 <= k < m.len(),
    ensures
        a.contains(m[k]) || b.contains(m[k]),
{
    assert(m.contains(m[k]));
    assert(m.to_multiset().count(m[k]) > 0);
}

proof fn lemma_join_sorted(l: Seq<SentenceId>, p: SentenceId, r: Seq<SentenceId>)
    requires
        sorted(l),
        sorted(r),
        forall|k: int| 0 <= k < l.len() ==> id_le(#[trigger] l[k], p),
        forall|k: int| 0 <= k < r.len() ==> id_le(p, #[trigger] r[k]),
    ensures
        sorted(l.push(p) + r),
{
    let s = l.push(p) + r;
    assert forall|i: int, j: int| 0 <= i < j < s.len() implies id_le(#[trigger] s[i], #[trigger] s[j]) by {
        if j < l.len() {
            assert(s[i] == l[i] && s[j] == l[j]);
        } else if j == l.len() {
            assert(s[i] == l[i]);
        } else if i > l.len() {
            assert(s[i] == r[i - l.len() - 1] && s[j] == r[j - l.len() - 1]);
        } else if i == l.len() {
            assert(s[j] == r[j - l.len() - 1]);
        } else {
            assert(s[i] == l[i] && s[j] == r[j - l.len() - 1]);
        }
    }
}

/// Relies on `rayon::join`: both merges run, possibly in parallel, and
/// their results come back as a pair, left first.
#[verifier::external_body]
fn join_merges(
    a: &[SentenceId],
    b: &[SentenceId],
    left: (usize, usize, usize, usize),
    right: (usize, usize, usize, usize),
) -> (r: (Vec<SentenceId>, Vec<SentenceId>))
    requires
        left.0 <= left.1 <= a@.len(),
        left.2 <= left.3 <= b@.len(),
        right.0 <= right.1 <= a@.len(),
        right.2 <= right.3 <= b@.len(),
        sorted(a@),
        sorted(b@),
    ensures
        r.0@.len() == (left.1 - left.0) + (left.3 - left.2),
        is_merge_of(r.0@, a@.subrange(left.0 as int, left.1 as int), b@.subrange(left.2 as int, left.3 as int)),
        r.1@.len() == (right.1 - right.0) + (right.3 - right.2),
        is_merge_of(r.1@, a@.subrange(right.0 as int, right.1 as int), b@.subrange(right.2 as int, right.3 as int)),
{
    rayon::join(|| merge_vec(a, left.0, left.1, b, left.2, left.3), || merge_vec(a, right.0, right.1, b, right.2, right.3))
}

/// The merge of `a[alo..ahi]` and `b[blo..bhi]`: small inputs go through
/// the two-pointer merge; a large one is split at the middle id of the
/// larger side, whose place in the smaller side a binary search finds, and
/// both halves are merged on their own, in parallel.
fn merge_vec(a: &[SentenceId], alo: usize, ahi: usize, b: &[SentenceId], blo: usize, bhi: usize) -> (r: Vec<SentenceId>)
    requires
        alo <= ahi <= a@.len(),
        blo <= bhi <= b@.len(),
        sorted(a@),
        sorted(b@),
    ensures
        r@.len() == (ahi - alo) + (bhi - blo),
        is_merge_of(r@, a@.subrange(alo as int, ahi as int), b@.subrange(blo as int, bhi as int)),
{
    let ghost sa = a@.subrange(alo as int, ahi as int);
    let ghost sb = b@.subrange(blo as int, bhi as int);
    let swap = ahi - alo < bhi - blo;
    let (x, xlo, xhi, y, ylo, yhi) = if swap {
        (b, blo, bhi, a, alo, ahi)
    } else {
        (a, alo, ahi, b, blo, bhi)
    };
    let ghost sx = x@.subrange(xlo as int, xhi as int);
    let ghost sy = y@.subrange(ylo as int, yhi as int);
    proof {
        assert(sx.to_multiset().add(sy.to_multiset()) =~= sa.to_multiset().add(sb.to_multiset()));
    }
    let mut out: Vec<SentenceId> = Vec::new();
    if xhi - xlo == 0 {
        proof {
            lemma_empty_multiset();
            assert(sx =~= Seq::<SentenceId>::empty());
            assert(sy =~= Seq::<SentenceId>::empty());
        }
        return out;
    }
    if xhi - xlo < PARALLEL_MERGE_THRESH {
        scalar_merge(x, xlo, xhi, y, ylo, yhi, &mut out);
        assert(out@.subrange(0, out@.len() as int) =~= out@);
        return out;
    }
    let pivot = xlo + (xhi - xlo) / 2;
    let p = x[pivot];
    let s = lower_bound(y, ylo, yhi, &p);
    let (left, right) = join_merges(x, y, (xlo, pivot, ylo, s), (pivot + 1, xhi, s, yhi));
    let ghost l = left@;
    let ghost r = right@;
    out = left;
    out.push(p);
    let mut k: usize = 0;
    while k < right.len()
        invariant
            0 <= k <= r.len(),
            r == right@,
            out@ == l.push(p) + r.subrange(0, k as int),
        decreases r.len() - k,
    {
        out.push(right[k]);
        assert(r.subrange(0, k + 1) =~= r.subrange(0, k as int).push(r[k as int]));
        assert(out@ =~= l.push(p) + r.subrange(0, k + 1));
        k = k + 1;
    }
    proof {
        assert(r.subrange(0, k as int) =~= r);
        let xl = x@.subrange(xlo as int, pivot as int);
        let xr = x@.subrange(pivot + 1, xhi as int);
        let yl = y@.subrange(ylo as int, s as int);
        let yr = y@.subrange(s as int, yhi as int);
        assert forall|q: int| 0 <= q < l.len() implies id_le(#[trigger] l[q], p) by {
            lemma_merge_members(l, xl, yl, q);
            if xl.contains(l[q]) {
                let t = choose|t: int| 0 <= t < xl.len() && xl[t] == l[q];
                assert(xl[t] == x@[xlo + t]);
            } else {
                let t = choose|t: int| 0 <= t < yl.len() && yl[t] == l[q];
                assert(yl[t] == y@[ylo + t]);
            }
        }
        assert forall|q: int| 0 <= q < r.len() implies id_le(p, #[trigger] r[q]) by {
            lemma_merge_members(r, xr, yr, q);
            if xr.contains(r[q]) {
                let t = choose|t: int| 0 <= t < xr.len() && xr[t] == r[q];
                assert(xr[t] == x@[pivot + 1 + t]);
            } else {
                let t = choose|t: int| 0 <= t < yr.len() && yr[t] == r[q];
                assert(yr[t] == y@[s + t]);
            }
        }
        lemma_join_sorted(l, p, r);
        vstd::seq_lib::lemma_multiset_commutative(l.push(p), r);
        lemma_multiset_split(x@, xlo as int, pivot as int, xhi as int);
        lemma_multiset_push_range(x@, xlo as int, pivot as int);
        lemma_multiset_split(x@, xlo as int, pivot + 1, xhi as int);
        lemma_multiset_split(y@, ylo as int, s as int, yhi as int);
        assert((l.push(p) + r).to_multiset() =~= sx.to_multiset().add(sy.to_multiset()));
    }
    out
}

/// A merge holds exactly the ids of its two inputs.
pub proof fn lemma_merge_contains(m: Seq<SentenceId>, a: Seq<SentenceId>, b: Seq<SentenceId>)
    requires
        is_merge_of(m, a, b),
    ensures
        forall|x: SentenceId| #[trigger] m.contains(x) <==> a.contains(x) || b.contains(x),
{
    assert forall|x: SentenceId| #[trigger] m.contains(x) <==> a.contains(x) || b.contains(x) by {
        assert(m.to_multiset().count(x) == a.to_multiset().count(x) + b.to_multiset().count(x));
    }
}

/// Sorts `v[lo..hi]` by splitting it in halves and merging them.
pub fn sort_ids(v: &[SentenceId], lo: usize, hi: usize) -> (r: Vec<SentenceId>)
    requires
        lo <= hi <= v@.len(),
    ensures
        sorted(r@),
        r@.to_multiset() == v@.subrange(lo as int, hi as int).to_multiset(),
        forall|x: SentenceId| #[trigger] r@.contains(x) <==> v@.subrange(lo as int, hi as int).contains(x),
    decreases hi - lo,
{
    if hi - lo <= 1 {
        let mut out: Vec<SentenceId> = Vec::new();
        if hi - lo == 1 {
            out.push(v[lo]);
            assert(out@ =~= v@.subrange(lo as int, hi as int));
        } else {
            assert(out@ =~= v@.subrange(lo as int, hi as int));
        }
        return out;
    }
    let mid = lo + (hi - lo) / 2;
    let left = sort_ids(v, lo, mid);
    let right = sort_ids(v, mid, hi);
    let merged = SentenceIdList::merge_slices(left.as_slice(), right.as_slice());
    proof {
        lemma_multiset_split(v@, lo as int, mid as int, hi as int);
        assert forall|x: SentenceId| #[trigger] merged@.contains(x) <==> v@.subrange(lo as int, hi as int).contains(x) by {
            assert(merged@.to_multiset().count(x) == v@.subrange(lo as int, hi as int).to_multiset().count(x));
        }
    }
    merged.ids
}

/// A list of sentence ids in which removed entries are overwritten with the
/// tombstone instead of being taken out.
pub struct SentenceIdList {
    pub ids: Vec<SentenceId>,
}

impl View for SentenceIdList {
    type V = Seq<SentenceId>;

    open spec fn view(&self) -> Seq<SentenceId> {
        self.ids@
    }
}

impl SentenceIdList {
    pub fn from_slice(v: &[SentenceId]) -> (r: SentenceIdList)
        ensures
            r@ == v@,
    {
        SentenceIdList { ids: vstd::slice::slice_to_vec(v) }
    }

    /// The sorted merge of two sorted lists; duplicates are kept.
    pub fn merge_slices(a: &[SentenceId], b: &[SentenceId]) -> (r: SentenceIdList)
        requires
            sorted(a@),
            sorted(b@),
        ensures
            is_merge_of(r@, a@, b@),
            r@.len() == a@.len() + b@.len(),
    {
        let out = merge_vec(a, 0, a.len(), b, 0, b.len());
        proof {
            assert(a@.subrange(0, a@.len() as int) =~= a@);
            assert(b@.subrange(0, b@.len() as int) =~= b@);
        }
        SentenceIdList { ids: out }
    }

    /// Overwrites with the tombstone every valid id that `keep` rejects. The
    /// length does not change.
    pub fn retain<F: Fn(&SentenceId) -> bool>(&mut self, keep: F)
        requires
            forall|id: SentenceId| keep.requires((&id,)),
        ensures
            final(self)@.len() == old(self)@.len(),
            forall|i: int| 0 <= i < old(self)@.len() ==> {
                let o = #[trigger] old(self)@[i];
                let n = final(self)@[i];
                if !is_valid_id(o) {
                    n == o
                } else {
                    (n == o && keep.ensures((&o,), true)) || (n == zero_id() && keep.ensures((&o,), false))
                }
            },
    {
        let ghost orig = self@;
        let mut i: usize = 0;
        while i < self.ids.len()
            invariant
                0 <= i <= self@.len(),
                self@.len() == orig.len(),
                forall|id: SentenceId| keep.requires((&id,)),
                forall|k: int| i <= k < orig.len() ==> self@[k] == orig[k],
                forall|k: int| 0 <= k < i ==> {
                    let o = #[trigger] orig[k];
                    let n = self@[k];
                    if !is_valid_id(o) {
                        n == o
                    } else {
                        (n == o && keep.ensures((&o,), true)) || (n == zero_id() && keep.ensures((&o,), false))
                    }
                },
            decreases orig.len() - i,
        {
            let slot = self.ids[i];
            if slot.is_valid() {
                let k = keep(&slot);
                if !k {
                    self.ids.set(i, SentenceId::zeroed());
                }
            }
            i = i + 1;
        }
    }

    /// Leaves only the first of each run of equal ids, so that a sorted
    /// list becomes strictly ascending with the same ids.
    pub fn dedup(&mut self)
        requires
            sorted(old(self)@),
        ensures
            strictly_sorted(final(self)@),
            forall|x: SentenceId| final(self)@.contains(x) <==> old(self)@.contains(x),
    {
        let ghost orig = self@;
        let mut out: Vec<SentenceId> = Vec::new();
        let mut i: usize = 0;
        while i < self.ids.len()
            invariant
                0 <= i <= orig.len(),
                self@ == orig,
                sorted(orig),
                strictly_sorted(out@),
                out@.len() > 0 ==> exists|k: int| 0 <= k < i && orig[k] == out@[out@.len() - 1],
                out@.len() > 0 && i < orig.len() ==> id_le(out@[out@.len() - 1], orig[i as int]),
                forall|x: SentenceId| out@.contains(x) <==> exists|k: int| 0 <= k < i && orig[k] == x,
            decreases orig.len() - i,
        {
            let x = self.ids[i];
            let n = out.len();
            if n == 0 || out[n - 1] != x {
                let ghost before = out@;
                proof {
                    if n > 0 {
                        lemma_id_key_injective(out@[n - 1], x);
                    }
                }
                out.push(x);
                assert forall|p: int, q: int| 0 <= p < q < out@.len() implies id_lt(#[trigger] out@[p], #[trigger] out@[q]) by {
                    if q == out@.len() - 1 && p < q - 1 {
                        assert(id_lt(before[p], before[n - 1]));
                    }
                }
                assert forall|y: SentenceId| out@.contains(y) <==> exists|k: int| 0 <= k < i + 1 && orig[k] == y by {
                    if out@.contains(y) {
                        let t = choose|t: int| 0 <= t < out@.len() && out@[t] == y;
                        if t < n {
                            assert(before.contains(y));
                        }
                    }
                    if exists|k: int| 0 <= k < i + 1 && orig[k] == y {
                        let k = choose|k: int| 0 <= k < i + 1 && orig[k] == y;
                        if k < i {
                            assert(before.contains(y));
                            let t = choose|t: int| 0 <= t < before.len() && before[t] == y;
                            assert(out@[t] == y);
                        } else {
                            assert(out@[n as int] == y);
                        }
                    }
                }
            } else {
                assert forall|y: SentenceId| out@.contains(y) <==> exists|k: int| 0 <= k < i + 1 && orig[k] == y by {
                    if exists|k: int| 0 <= k < i + 1 && orig[k] == y {
                        let k = choose|k: int| 0 <= k < i + 1 && orig[k] == y;
                        if k == i {
                            assert(out@[n - 1] == y);
                        }
                    }
                }
            }
            proof {
                if i + 1 < orig.len() {
                    assert(id_le(orig[i as int], orig[i + 1]));
                }
            }
            i = i + 1;
        }
        assert forall|x: SentenceId| out@.contains(x) <==> orig.contains(x) by {
            if orig.contains(x) {
                let k = choose|k: int| 0 <= k < orig.len() && orig[k] == x;
                assert(exists|k: int| 0 <= k < i && orig[k] == x);
            }
        }
        self.ids = out;
    }

    /// The ids that are not the tombstone, in order.
    pub fn into_valid(self) -> (r: Vec<SentenceId>)
        ensures
            r@ == valid_only(self@),
            valid_sorted(self@) ==> sorted(r@),
            valid_strictly_sorted(self@) ==> strictly_sorted(r@),
            forall|x: SentenceId| r@.contains(x) <==> holds(self@, x),
    {
        let mut out: Vec<SentenceId> = Vec::new();
        let mut i: usize = 0;
        assert(self@.subrange(0, 0) =~= Seq::<SentenceId>::empty());
        while i < self.ids.len()
            invariant
                0 <= i <= self@.len(),
                out@ == valid_only(self@.subrange(0, i as int)),
                valid_sorted(self@) ==> sorted(out@),
                valid_strictly_sorted(self@) ==> strictly_sorted(out@),
                forall|x: SentenceId| out@.contains(x) <==> exists|t: int| 0 <= t < i && self@[t] == x && is_valid_id(x),
            decreases self@.len() - i,
        {
            let x = self.ids[i];
            let ghost before = out@;
            proof {
                assert(self@.subrange(0, i + 1) =~= self@.subrange(0, i as int).push(x));
                self@.subrange(0, i as int).lemma_filter_push(x, |id: SentenceId| is_valid_id(id));
            }
            if x.is_valid() {
                out.push(x);
                proof {
                    assert forall|p: int, q: int| 0 <= p < q < out@.len() && valid_sorted(self@) implies id_le(#[trigger] out@[p], #[trigger] out@[q]) by {
                        if q == before.len() {
                            assert(before.contains(before[p]));
                            let t = choose|t: int| 0 <= t < i && self@[t] == before[p] && is_valid_id(before[p]);
                            assert(id_le(self@[t], self@[i as int]));
                        } else {
                            assert(out@[p] == before[p] && out@[q] == before[q]);
                        }
                    }
                    assert forall|p: int, q: int| 0 <= p < q < out@.len() && valid_strictly_sorted(self@) implies id_lt(#[trigger] out@[p], #[trigger] out@[q]) by {
                        if q == before.len() {
                            assert(before.contains(before[p]));
                            let t = choose|t: int| 0 <= t < i && self@[t] == before[p] && is_valid_id(before[p]);
                            assert(id_lt(self@[t], self@[i as int]));
                        } else {
                            assert(out@[p] == before[p] && out@[q] == before[q]);
                        }
                    }
                    assert forall|y: SentenceId| out@.contains(y) <==> exists|t: int| 0 <= t < i + 1 && self@[t] == y && is_valid_id(y) by {
                        if out@.contains(y) {
                            let k = choose|k: int| 0 <= k < out@.len() && out@[k] == y;
                            if k < before.len() {
                                assert(before.contains(y));
                            }
                        }
                        if exists|t: int| 0 <= t < i + 1 && self@[t] == y && is_valid_id(y) {
                            let t = choose|t: int| 0 <= t < i + 1 && self@[t] == y && is_valid_id(y);
                            if t < i {
                                assert(before.contains(y));
                                let k = choose|k: int| 0 <= k < before.len() && before[k] == y;
                                assert(out@[k] == y);
                            } else {
                                assert(out@[before.len() as int] == y);
                            }
                        }
                    }
                }
            } else {
                proof {
                    assert forall|y: SentenceId| out@.contains(y) <==> exists|t: int| 0 <= t < i + 1 && self@[t] == y && is_valid_id(y) by {
                        if exists|t: int| 0 <= t < i + 1 && self@[t] == y && is_valid_id(y) {
                            let t = choose|t: int| 0 <= t < i + 1 && self@[t] == y && is_valid_id(y);
                            assert(t < i);
                        }
                    }
                }
            }
            i = i + 1;
        }
        assert(self@.subrange(0, i as int) =~= self@);
        assert forall|y: SentenceId| out@.contains(y) <==> holds(self@, y) by {
            if holds(self@, y) {
                let t = choose|t: int| 0 <= t < self@.len() && self@[t] == y;
                assert(exists|t: int| 0 <= t < i && self@[t] == y && is_valid_id(y));
            }
        }
        out
    }

    pub fn len(&self) -> (r: usize)
        ensures
            r == self@.len(),
    {
        self.ids.len()
    }
}

/// Walks the valid ids of a list in order.
pub struct SentenceIdListIter {
    ids: Vec<SentenceId>,
    pos: usize,
}

impl SentenceIdListIter {
    /// The ids not handed out yet, tombstones included.
    pub closed spec fn remaining(&self) -> Seq<SentenceId> {
        self.ids@.subrange(self.pos as int, self.ids@.len() as int)
    }

    pub closed spec fn wf(&self) -> bool {
        self.pos <= self.ids@.len()
    }

    pub fn new(list: SentenceIdList) -> (r: SentenceIdListIter)
        ensures
            r.wf(),
            r.remaining() == list@,
    {
        let r = SentenceIdListIter { ids: list.ids, pos: 0 };
        assert(r.remaining() =~= r.ids@);
        r
    }

    /// The next valid id, if any is left.
    pub fn next(&mut self) -> (r: Option<SentenceId>)
        requires
            old(self).wf(),
        ensures
            final(self).wf(),
            valid_only(old(self).remaining()).len() == 0 ==> r is None,
            valid_only(old(self).remaining()).len() > 0 ==> r == Some(valid_only(old(self).remaining())[0])
                && valid_only(final(self).remaining()) == valid_only(old(self).remaining()).drop_first(),
    {
        let ghost rest0 = self.remaining();
        while self.pos < self.ids.len()
            invariant
                self.wf(),
                valid_only(self.remaining()) == valid_only(rest0),
                rest0 == old(self).remaining(),
            decreases self.ids@.len() - self.pos,
        {
            let x = self.ids[self.pos];
            let ghost rest = self.remaining();
            proof {
                assert(rest =~= seq![x] + rest.drop_first());
                assert(rest.drop_first() =~= self.ids@.subrange(self.pos + 1, self.ids@.len() as int));
                rest.drop_first().lemma_filter_prepend(x, |id: SentenceId| is_valid_id(id));
            }
            self.pos = self.pos + 1;
            assert(self.remaining() == rest.drop_first());
            if x.is_valid() {
                assert(valid_only(rest) == seq![x] + valid_only(rest.drop_first()));
                assert((seq![x] + valid_only(rest.drop_first())).drop_first() =~= valid_only(rest.drop_first()));
                return Some(x);
            }
        }
        proof {
            assert(self.remaining() =~= Seq::<SentenceId>::empty());
            assert(valid_only(self.remaining()) =~= Seq::<SentenceId>::empty());
        }
        None
    }
}

} // verus!
