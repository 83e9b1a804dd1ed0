use joie::builder::{BuildError, DatabaseBuilder, DocumentData};
use joie::corpus::{EpMetadata, SeasonFilter, SeasonId};
use joie::database::Database;
use joie::query::DynamicQuery;
use joie::sentence::{CopyableRange, SentenceId};

fn doc(id: u32, text: &str, season: u8) -> DocumentData<String, EpMetadata> {
    DocumentData { id, text: text.to_string(), metadata: EpMetadata { season }, data: format!("payload {}", id) }
}

fn corpus(extra: bool) -> Database<String, EpMetadata, ()> {
    let mut b: DatabaseBuilder<String, EpMetadata, ()> = DatabaseBuilder::new();
    b.add_document(doc(1, "the quick brown fox", 0)).unwrap();
    b.add_document(doc(2, "quick sand is slow", 1)).unwrap();
    if extra {
        b.add_document(doc(3, "brown", 0)).unwrap();
    }
    b.build()
}

fn ids_of(db: &Database<String, EpMetadata, ()>, q: &DynamicQuery<()>) -> Vec<(u32, u32)> {
    db.query(q).iter().map(|r| (r.id.doc, r.id.sentence)).collect()
}

fn r(start: usize, end: usize) -> CopyableRange {
    CopyableRange { start, end }
}

#[test]
fn phrase_single_word() {
    let db = corpus(false);
    let q = db.phrase_query("quick", ());
    let res = db.query(&q);
    let ids: Vec<SentenceId> = res.iter().map(|r| r.id).collect();
    assert_eq!(ids, vec![SentenceId::new(1, 0), SentenceId::new(2, 0)]);
    assert_eq!(res[0].highlighted_parts, vec![r(4, 9)]);
    assert_eq!(res[1].highlighted_parts, vec![r(0, 5)]);
}

#[test]
fn phrase_two_words() {
    let db = corpus(false);
    let q = db.phrase_query("quick brown", ());
    let res = db.query(&q);
    assert_eq!(res.len(), 1);
    assert_eq!(res[0].id, SentenceId::new(1, 0));
    assert_eq!(res[0].highlighted_parts, vec![r(4, 15)]);
}

#[test]
fn phrase_words_out_of_order() {
    let db = corpus(false);
    let q = db.phrase_query("brown quick", ());
    assert_eq!(ids_of(&db, &q), vec![]);
}

#[test]
fn phrase_unknown_word() {
    let db = corpus(false);
    assert_eq!(db.tokenize_phrase("zzzzz"), vec![0]);
    let q = db.phrase_query("zzzzz", ());
    assert_eq!(ids_of(&db, &q), vec![]);
}

#[test]
fn and_query_same_with_and_without_optimization() {
    let db = corpus(false);
    let fast = db.parse_query("quick AND fox", (), true).unwrap();
    let plain = db.parse_query("quick AND fox", (), false).unwrap();
    assert!(matches!(fast, DynamicQuery::PhraseIntersection(_)));
    assert!(matches!(plain, DynamicQuery::Intersection(_)));
    assert_eq!(ids_of(&db, &fast), vec![(1, 0)]);
    assert_eq!(ids_of(&db, &plain), vec![(1, 0)]);
    let res = db.query(&fast);
    assert_eq!(res[0].highlighted_parts, vec![r(4, 9), r(16, 19)]);
    let res = db.query(&plain);
    assert_eq!(res[0].highlighted_parts, vec![r(4, 9), r(16, 19)]);
}

#[test]
fn or_of_single_words_is_keywords() {
    let db = corpus(false);
    let q = db.parse_query("fox OR sand", (), true).unwrap();
    assert!(matches!(q, DynamicQuery::Keywords(_)));
    let res = db.query(&q);
    let ids: Vec<(u32, u32)> = res.iter().map(|r| (r.id.doc, r.id.sentence)).collect();
    assert_eq!(ids, vec![(1, 0), (2, 0)]);
    assert_eq!(res[0].highlighted_parts, vec![r(16, 19)]);
    assert_eq!(res[1].highlighted_parts, vec![r(6, 10)]);
}

#[test]
fn or_without_optimization_is_union() {
    let db = corpus(false);
    let q = db.parse_query("fox OR sand", (), false).unwrap();
    assert!(matches!(q, DynamicQuery::Union(_)));
    assert_eq!(ids_of(&db, &q), vec![(1, 0), (2, 0)]);
}

#[test]
fn filter_by_group() {
    let db = corpus(true);
    let filter = SeasonFilter::new(&[SeasonId::AutumnInHieron]);
    let q = db.phrase_query("brown", filter);
    let ids: Vec<(u32, u32)> = db.query(&q).iter().map(|r| (r.id.doc, r.id.sentence)).collect();
    assert_eq!(ids, vec![(1, 0), (3, 0)]);
    let q = db.phrase_query("quick", filter);
    let ids: Vec<(u32, u32)> = db.query(&q).iter().map(|r| (r.id.doc, r.id.sentence)).collect();
    assert_eq!(ids, vec![(1, 0)]);
}

#[test]
fn adding_a_document_adds_a_result() {
    let before = corpus(false);
    let after = corpus(true);
    let q1 = before.phrase_query("brown", ());
    let q2 = after.phrase_query("brown", ());
    assert_eq!(before.query(&q1).len() + 1, after.query(&q2).len());
}

#[test]
fn nested_query() {
    let db = corpus(false);
    let q = db.parse_query("(fox OR sand) AND quick", (), true).unwrap();
    assert_eq!(ids_of(&db, &q), vec![(1, 0), (2, 0)]);
    let q = db.parse_query("slow AND (fox OR sand)", (), true).unwrap();
    assert_eq!(ids_of(&db, &q), vec![(2, 0)]);
    let q = db.parse_query("\"quick brown\" OR slow", (), true).unwrap();
    assert_eq!(ids_of(&db, &q), vec![(1, 0), (2, 0)]);
}

#[test]
fn invalid_query_is_none() {
    let db = corpus(false);
    assert!(db.parse_query("(quick", (), true).is_none());
    assert!(db.parse_query("\"open", (), true).is_none());
    assert!(db.parse_query("AND", (), true).is_none());
}

#[test]
fn multi_line_documents() {
    let mut b: DatabaseBuilder<String, EpMetadata, ()> = DatabaseBuilder::new();
    b.add_document(doc(5, "first line here\nsecond quick line\r\nthird", 2)).unwrap();
    let db = b.build();
    let q = db.phrase_query("line", ());
    let ids: Vec<(u32, u32)> = db.query(&q).iter().map(|r| (r.id.doc, r.id.sentence)).collect();
    assert_eq!(ids, vec![(5, 0), (5, 1)]);
    let res = db.query(&q);
    assert_eq!(res[1].sentence.text, "second quick line");
}

#[test]
fn document_zero_is_rejected() {
    let mut b: DatabaseBuilder<String, EpMetadata, ()> = DatabaseBuilder::new();
    assert_eq!(b.add_document(doc(0, "hello", 0)), Err(BuildError::InvalidCorpus));
}

#[test]
fn payloads_are_kept() {
    let db = corpus(true);
    assert_eq!(db.get_doc(&2), Some(&"payload 2".to_string()));
    assert_eq!(db.get_doc(&9), None);
}

#[test]
fn stemming_and_case_match() {
    let mut b: DatabaseBuilder<String, EpMetadata, ()> = DatabaseBuilder::new();
    b.add_document(doc(1, "The dogs were RUNNING", 0)).unwrap();
    let db = b.build();
    assert_eq!(db.tokenize_phrase("running"), db.tokenize_phrase("run"));
    assert_eq!(db.tokenize_phrase("DOG"), db.tokenize_phrase("dogs"));
    let q = db.phrase_query("dog", ());
    let res = db.query(&q);
    assert_eq!(res.len(), 1);
    assert_eq!(res[0].highlighted_parts, vec![r(4, 8)]);
}

#[test]
fn result_parts_split_text() {
    let db = corpus(false);
    let q = db.phrase_query("brown", ());
    let res = db.query(&q);
    let parts = res[0].highlights();
    assert_eq!(parts.len(), 3);
}

#[test]
fn keyword_highlights_sorted_by_start() {
    let db = corpus(false);
    let q = db.parse_query("fox OR quick", (), true).unwrap();
    assert!(matches!(q, DynamicQuery::Keywords(_)));
    let res = db.query(&q);
    assert_eq!(res[0].id, SentenceId::new(1, 0));
    assert_eq!(res[0].highlighted_parts, vec![r(4, 9), r(16, 19)]);
}

#[test]
fn union_is_union_of_parts() {
    let db = corpus(true);
    let a = ids_of(&db, &db.phrase_query("fox", ()));
    let b = ids_of(&db, &db.phrase_query("brown", ()));
    let u = ids_of(&db, &db.parse_query("fox OR \"brown\" OR slow", (), true).unwrap());
    assert_eq!(a, vec![(1, 0)]);
    assert_eq!(b, vec![(1, 0), (3, 0)]);
    assert_eq!(u, vec![(1, 0), (2, 0), (3, 0)]);
}

#[test]
fn intersection_is_within_parts() {
    let db = corpus(true);
    let i = ids_of(&db, &db.parse_query("brown AND (fox OR slow)", (), true).unwrap());
    assert_eq!(i, vec![(1, 0)]);
}

#[test]
fn overlapping_phrase_highlights_collapse() {
    let mut b: DatabaseBuilder<String, EpMetadata, ()> = DatabaseBuilder::new();
    b.add_document(doc(1, "red fish blue fish", 0)).unwrap();
    let db = b.build();
    let q = db.parse_query("\"red fish\" AND \"fish blue\"", (), true).unwrap();
    let res = db.query(&q);
    assert_eq!(res.len(), 1);
    assert_eq!(res[0].highlighted_parts, vec![r(0, 13)]);
}

#[test]
fn and_with_empty_phrase_matches_nothing() {
    let db = corpus(false);
    let fast = db.parse_query("\"quick\" AND \"\"", (), true).unwrap();
    let plain = db.parse_query("\"quick\" AND \"\"", (), false).unwrap();
    assert_eq!(ids_of(&db, &fast), vec![]);
    assert_eq!(ids_of(&db, &plain), vec![]);
    let both_empty = db.parse_query("\"\" AND \"\"", (), true).unwrap();
    assert_eq!(ids_of(&db, &both_empty), vec![]);
}

#[test]
fn document_metadata_laid_out_by_id() {
    let db = corpus(true);
    assert_eq!(db.search.doc_meta.len(), 4);
    assert_eq!(db.search.doc_meta[2].season, 1);
    assert_eq!(db.search.doc_meta[3].season, 0);
}
