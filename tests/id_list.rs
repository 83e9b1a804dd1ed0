use joie::id_list::{search_sorted, sort_ids, SentenceIdList, SentenceIdListIter};
use joie::sentence::SentenceId;

fn ids(v: &[u32]) -> Vec<SentenceId> {
    v.iter().map(|&d| SentenceId::new(d, 0)).collect()
}

fn docs(l: &SentenceIdList) -> Vec<u32> {
    l.ids.iter().map(|id| id.doc).collect()
}

struct Lcg(u64);

impl Lcg {
    fn next(&mut self) -> u32 {
        self.0 = self.0.wrapping_mul(6364136223846793005).wrapping_add(1442695040888963407);
        (self.0 >> 33) as u32
    }

    fn range(&mut self, lo: u32, hi: u32) -> u32 {
        lo + self.next() % (hi - lo)
    }
}

fn gen_list(rng: &mut Lcg, n: usize) -> Vec<SentenceId> {
    let mut l: Vec<SentenceId> = (0..n)
        .map(|_| SentenceId::new(rng.range(1, 256), rng.range(1, 256)))
        .collect();
    l.sort_by_key(|id| (id.doc, id.sentence));
    l
}

fn test_merge(a: Vec<SentenceId>, b: Vec<SentenceId>) {
    let par_merged = SentenceIdList::merge_slices(&a, &b);
    let normal_merged = {
        let mut c = [a, b].concat();
        c.sort_by_key(|id| (id.doc, id.sentence));
        c
    };
    assert_eq!(par_merged.ids, normal_merged);
    assert_eq!(par_merged.into_valid().len(), normal_merged.len());
}

#[test]
fn test_simple_par_merge() {
    let mut rng = Lcg(7);
    let a = gen_list(&mut rng, 1000);
    let b = gen_list(&mut rng, 1200);
    test_merge(a, b);
}

#[test]
fn test_par_merge() {
    let mut rng = Lcg(11);
    let (a, b) = (gen_list(&mut rng, 100_000), gen_list(&mut rng, 100_000));
    test_merge(a, b);
    let (a, b) = (gen_list(&mut rng, 0), gen_list(&mut rng, 50_000));
    test_merge(a, b);
    let (a, b) = (gen_list(&mut rng, 50_000), gen_list(&mut rng, 0));
    test_merge(a, b);
    let (a, b) = (gen_list(&mut rng, 8000), gen_list(&mut rng, 4000));
    test_merge(a, b);
    for _ in 0..1000 {
        let n = rng.range(0, 20_000) as usize;
        let m = rng.range(0, 20_000) as usize;
        let (a, b) = (gen_list(&mut rng, n), gen_list(&mut rng, m));
        test_merge(a, b);
    }
}

#[test]
fn merge_interleaves() {
    let r = SentenceIdList::merge_slices(&ids(&[1, 3, 5]), &ids(&[2, 4, 6]));
    assert_eq!(docs(&r), vec![1, 2, 3, 4, 5, 6]);
}

#[test]
fn merge_with_empty_side() {
    let r = SentenceIdList::merge_slices(&ids(&[]), &ids(&[2, 4]));
    assert_eq!(docs(&r), vec![2, 4]);
    let r = SentenceIdList::merge_slices(&ids(&[2, 4]), &ids(&[]));
    assert_eq!(docs(&r), vec![2, 4]);
}

#[test]
fn merge_keeps_duplicates() {
    let r = SentenceIdList::merge_slices(&ids(&[1, 1, 2]), &ids(&[1, 3]));
    assert_eq!(docs(&r), vec![1, 1, 1, 2, 3]);
}

#[test]
fn merge_orders_by_doc_then_sentence() {
    let a = vec![SentenceId::new(1, 5), SentenceId::new(2, 0)];
    let b = vec![SentenceId::new(1, 2), SentenceId::new(1, 7)];
    let r = SentenceIdList::merge_slices(&a, &b);
    assert_eq!(
        r.ids,
        vec![SentenceId::new(1, 2), SentenceId::new(1, 5), SentenceId::new(1, 7), SentenceId::new(2, 0)]
    );
}

#[test]
fn merge_above_split_threshold() {
    let a: Vec<SentenceId> = (0..40_000u32).map(|i| SentenceId::new(1 + 2 * i, 0)).collect();
    let b: Vec<SentenceId> = (0..100u32).map(|i| SentenceId::new(2 + 400 * i, 0)).collect();
    let r = SentenceIdList::merge_slices(&a, &b);
    assert_eq!(r.ids.len(), 40_100);
    assert!(r.ids.windows(2).all(|w| (w[0].doc, w[0].sentence) <= (w[1].doc, w[1].sentence)));
}

#[test]
fn retain_overwrites_with_tombstones() {
    let mut l = SentenceIdList::from_slice(&ids(&[1, 2, 3, 4]));
    l.retain(|id| id.doc % 2 == 0);
    assert_eq!(docs(&l), vec![0, 2, 0, 4]);
    assert_eq!(l.len(), 4);
    assert_eq!(l.into_valid(), ids(&[2, 4]));
}

#[test]
fn iterator_skips_tombstones() {
    let l = SentenceIdList::from_slice(&[SentenceId::zeroed(), SentenceId::new(3, 1), SentenceId::zeroed(), SentenceId::new(4, 0)]);
    let mut it = SentenceIdListIter::new(l);
    assert_eq!(it.next(), Some(SentenceId::new(3, 1)));
    assert_eq!(it.next(), Some(SentenceId::new(4, 0)));
    assert_eq!(it.next(), None);
}

#[test]
fn dedup_sorted_list() {
    let mut l = SentenceIdList::from_slice(&ids(&[1, 1, 2, 2, 2, 5]));
    l.dedup();
    assert_eq!(docs(&l), vec![1, 2, 5]);
}

#[test]
fn binary_search_positions() {
    let l = ids(&[2, 4, 6]);
    assert_eq!(search_sorted(&l, &SentenceId::new(4, 0)), Ok(1));
    assert_eq!(search_sorted(&l, &SentenceId::new(5, 0)), Err(2));
    assert_eq!(search_sorted(&l, &SentenceId::new(1, 0)), Err(0));
    assert_eq!(search_sorted(&l, &SentenceId::new(9, 0)), Err(3));
}

#[test]
fn sort_ids_sorts() {
    let v = ids(&[5, 3, 9, 1, 3]);
    assert_eq!(sort_ids(&v, 0, 5), ids(&[1, 3, 3, 5, 9]));
    assert_eq!(sort_ids(&v, 1, 3), ids(&[3, 9]));
}

#[test]
fn tombstone_is_invalid() {
    assert!(!SentenceId::zeroed().is_valid());
    assert!(SentenceId::new(0, 1).is_valid());
    assert!(SentenceId::new(1, 0).is_valid());
    assert!(SentenceId::new(1, 2).lt(&SentenceId::new(2, 0)));
    assert!(SentenceId::new(1, 2).le(&SentenceId::new(1, 2)));
}
