use joie::corpus::{page_size_default, EpMetadata, QueryKind, SeasonFilter, SeasonId, ServerError};
use joie::filter::DocumentFilter;

#[test]
fn default_page_size() {
    assert_eq!(page_size_default(), 50);
}

#[test]
fn error_reasons_and_statuses() {
    assert_eq!(ServerError::NotFound.reason(), "not found!");
    assert_eq!(ServerError::InvalidQuery.reason(), "invalid query!");
    assert_eq!(ServerError::BadPageToken.reason(), "bad page token!");
    assert_eq!(ServerError::NotFound.status(), 404);
    assert_eq!(ServerError::BadPageToken.status(), 400);
}

#[test]
fn season_numbers_round_trip() {
    for n in 0..14u8 {
        assert_eq!(SeasonId::from_number(n).unwrap().number(), n);
    }
    assert_eq!(SeasonId::from_number(14), None);
    assert_eq!(SeasonId::Partizan.slug(), "partizan");
    assert_eq!(SeasonId::default(), SeasonId::Other);
    assert_eq!(QueryKind::default(), QueryKind::Phrase);
}

#[test]
fn season_filter_accepts_chosen_seasons() {
    let f = SeasonFilter::new(&[SeasonId::Marielda, SeasonId::Patreon]);
    assert!(f.filter_document(&EpMetadata { season: 1 }));
    assert!(f.filter_document(&EpMetadata { season: 12 }));
    assert!(!f.filter_document(&EpMetadata { season: 0 }));
    assert!(!f.filter_document(&EpMetadata { season: 200 }));
    assert!(f.needed());
    assert!(!<() as DocumentFilter<EpMetadata>>::needed(&()));
}

use joie::builder::DatabaseBuilder;
use joie::corpus::{episode_document, episode_id, next_page_offset, page_groups, search_query, Episode, StoredEpisode};
use joie::sentence::SentenceId;

#[test]
fn episode_ids_per_season() {
    assert_eq!(episode_id(SeasonId::AutumnInHieron, 0), Some(1000));
    assert_eq!(episode_id(SeasonId::Marielda, 5), Some(2005));
    assert_eq!(episode_id(SeasonId::Other, usize::MAX), None);
}

fn episode(title: &str, n: usize) -> Episode {
    Episode {
        title: title.to_string(),
        slug: title.to_lowercase(),
        done: true,
        sorting_number: n,
        docs_id: None,
        download: None,
    }
}

#[test]
fn episode_documents_carry_metadata() {
    let d = episode_document(SeasonId::Partizan, episode("Ep One", 3), "hello there".to_string()).unwrap();
    assert_eq!(d.id, 8003);
    assert_eq!(d.metadata.season, 7);
    assert_eq!(d.data.title, "Ep One");
    assert_eq!(d.data.season, SeasonId::Partizan);
}

#[test]
fn results_grouped_into_pages() {
    let ids: Vec<SentenceId> = [1u32, 1, 2, 3, 3, 3, 4].iter().map(|&d| SentenceId::new(d, 0)).collect();
    assert_eq!(page_groups(&ids, 1, 2), vec![(2, 2, 3), (3, 3, 6)]);
    assert_eq!(page_groups(&ids, 0, 500), vec![(1, 0, 2), (2, 2, 3), (3, 3, 6), (4, 6, 7)]);
    assert_eq!(page_groups(&ids, 9, 5), vec![]);
    assert_eq!(page_groups(&[], 0, 5), vec![]);
}

#[test]
fn next_page_only_when_full() {
    assert_eq!(next_page_offset(0, 50, 50), Some(50));
    assert_eq!(next_page_offset(0, 3, 50), None);
    assert_eq!(next_page_offset(10, 100, 500), Some(110));
    assert_eq!(next_page_offset(usize::MAX, 100, 100), None);
}

#[test]
fn search_requests_build_queries() {
    let mut b: DatabaseBuilder<StoredEpisode, EpMetadata, ()> = DatabaseBuilder::new();
    for (season, text) in [(SeasonId::AutumnInHieron, "the quick brown fox"), (SeasonId::Marielda, "quick sand is slow")] {
        let d = episode_document(season, episode("t", 1), text.to_string()).unwrap();
        b.add_document(d).unwrap();
    }
    let db = b.build();
    let q = search_query(&db, "quick", QueryKind::Phrase, &[]).unwrap();
    assert_eq!(db.query(&q).len(), 2);
    let q = search_query(&db, "quick", QueryKind::Phrase, &[SeasonId::Marielda]).unwrap();
    let res = db.query(&q);
    assert_eq!(res.len(), 1);
    assert_eq!(res[0].id.doc, 2001);
    let q = search_query(&db, "fox OR sand", QueryKind::Advanced, &[]).unwrap();
    assert_eq!(db.query(&q).len(), 2);
    assert!(matches!(search_query(&db, "(fox", QueryKind::Advanced, &[]), Err(ServerError::InvalidQuery)));
}
