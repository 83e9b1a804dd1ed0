//! The data of the podcast-transcript corpus that the server indexes:
//! seasons, episodes, per-document metadata and a season filter.
use vstd::prelude::*;
use crate::filter::DocumentFilter;
use crate::builder::DocumentData;
use crate::database::Database;
use crate::parser::{compiles_to, lex, parse_tokens, phrase_is};
use crate::query::DynamicQuery;
use crate::sentence::SentenceId;
use crate::term_map::phrase_terms;

verus! {

/// The seasons, in their stored order.
#[derive(Clone, Copy, Debug, PartialEq, Eq, Structural, Hash)]
pub enum SeasonId {
    AutumnInHieron,
    Marielda,
    WinterInHieron,
    SpringInHieron,
    Counterweight,
    TwilightMirage,
    RoadToPartizan,
    Partizan,
    RoadToPalisade,
    Palisade,
    Sangfielle,
    Extras,
    Patreon,
    Other,
}

pub open spec fn season_number(s: SeasonId) -> u8 {
    match s {
        SeasonId::AutumnInHieron => 0,
        SeasonId::Marielda => 1,
        SeasonId::WinterInHieron => 2,
        SeasonId::SpringInHieron => 3,
        SeasonId::Counterweight => 4,
        SeasonId::TwilightMirage => 5,
        SeasonId::RoadToPartizan => 6,
        SeasonId::Partizan => 7,
        SeasonId::RoadToPalisade => 8,
        SeasonId::Palisade => 9,
        SeasonId::Sangfielle => 10,
        SeasonId::Extras => 11,
        SeasonId::Patreon => 12,
        SeasonId::Other => 13,
    }
}

/// The name of a season in URLs and responses.
pub open spec fn season_slug(s: SeasonId) -> Seq<char> {
    match s {
        SeasonId::AutumnInHieron => "autumn-in-hieron"@,
        SeasonId::Marielda => "marielda"@,
        SeasonId::WinterInHieron => "winter-in-hieron"@,
        SeasonId::SpringInHieron => "spring-in-hieron"@,
        SeasonId::Counterweight => "counterweight"@,
        SeasonId::TwilightMirage => "twilight-mirage"@,
        SeasonId::RoadToPartizan => "road-to-partizan"@,
        SeasonId::Partizan => "partizan"@,
        SeasonId::RoadToPalisade => "road-to-palisade"@,
        SeasonId::Palisade => "palisade"@,
        SeasonId::Sangfielle => "sangfielle"@,
        SeasonId::Extras => "extras"@,
        SeasonId::Patreon => "patreon"@,
        SeasonId::Other => "unknown-string"@,
    }
}

impl Default for SeasonId {
    fn default() -> (r: SeasonId)
        ensures
            r == SeasonId::Other,
    {
        SeasonId::Other
    }
}

impl SeasonId {
    /// The season's number, as stored in document metadata.
    pub fn number(&self) -> (r: u8)
        ensures
            r == season_number(*self),
    {
        match self {
            SeasonId::AutumnInHieron => 0,
            SeasonId::Marielda => 1,
            SeasonId::WinterInHieron => 2,
            SeasonId::SpringInHieron => 3,
            SeasonId::Counterweight => 4,
            SeasonId::TwilightMirage => 5,
            SeasonId::RoadToPartizan => 6,
            SeasonId::Partizan => 7,
            SeasonId::RoadToPalisade => 8,
            SeasonId::Palisade => 9,
            SeasonId::Sangfielle => 10,
            SeasonId::Extras => 11,
            SeasonId::Patreon => 12,
            SeasonId::Other => 13,
        }
    }

    /// The season with this number.
    pub fn from_number(n: u8) -> (r: Option<SeasonId>)
        ensures
            r matches Some(s) ==> season_number(s) == n,
            r is None <==> n > 13,
    {
        match n {
            0 => Some(SeasonId::AutumnInHieron),
            1 => Some(SeasonId::Marielda),
            2 => Some(SeasonId::WinterInHieron),
            3 => Some(SeasonId::SpringInHieron),
            4 => Some(SeasonId::Counterweight),
            5 => Some(SeasonId::TwilightMirage),
            6 => Some(SeasonId::RoadToPartizan),
            7 => Some(SeasonId::Partizan),
            8 => Some(SeasonId::RoadToPalisade),
            9 => Some(SeasonId::Palisade),
            10 => Some(SeasonId::Sangfielle),
            11 => Some(SeasonId::Extras),
            12 => Some(SeasonId::Patreon),
            13 => Some(SeasonId::Other),
            _ => None,
        }
    }

    /// The season's name in URLs and responses.
    pub fn slug(&self) -> (r: &'static str)
        ensures
            r@ == season_slug(*self),
    {
        match self {
            SeasonId::AutumnInHieron => "autumn-in-hieron",
            SeasonId::Marielda => "marielda",
            SeasonId::WinterInHieron => "winter-in-hieron",
            SeasonId::SpringInHieron => "spring-in-hieron",
            SeasonId::Counterweight => "counterweight",
            SeasonId::TwilightMirage => "twilight-mirage",
            SeasonId::RoadToPartizan => "road-to-partizan",
            SeasonId::Partizan => "partizan",
            SeasonId::RoadToPalisade => "road-to-palisade",
            SeasonId::Palisade => "palisade",
            SeasonId::Sangfielle => "sangfielle",
            SeasonId::Extras => "extras",
            SeasonId::Patreon => "patreon",
            SeasonId::Other => "unknown-string",
        }
    }
}

/// Per-document metadata: the season an episode belongs to.
#[derive(Clone, Copy, Debug, PartialEq, Eq, Structural)]
pub struct EpMetadata {
    pub season: u8,
}

impl Default for EpMetadata {
    fn default() -> (r: EpMetadata)
        ensures
            r.season == 0,
    {
        EpMetadata { season: 0 }
    }
}

impl crate::filter::DocumentMetadata for EpMetadata {
    open spec fn absent() -> EpMetadata {
        EpMetadata { season: 0 }
    }

    fn absent_metadata() -> (r: EpMetadata) {
        EpMetadata::default()
    }
}

/// The stored payload of an episode.
pub struct StoredEpisode {
    pub title: String,
    pub slug: String,
    pub docs_id: Option<String>,
    pub season: SeasonId,
}

/// Where an episode's plain-text transcript lives.
pub struct DownloadOptions {
    pub plain: String,
}

pub struct Episode {
    pub title: String,
    pub slug: String,
    pub done: bool,
    pub sorting_number: usize,
    pub docs_id: Option<String>,
    pub download: Option<DownloadOptions>,
}

pub struct Season {
    pub title: String,
    pub id: SeasonId,
    pub episodes: Vec<Episode>,
}

/// How a search request's text is read.
#[derive(Clone, Copy, Debug, PartialEq, Eq, Structural)]
pub enum QueryKind {
    Phrase,
    Advanced,
}

impl Default for QueryKind {
    fn default() -> (r: QueryKind)
        ensures
            r == QueryKind::Phrase,
    {
        QueryKind::Phrase
    }
}

/// Results per page when a request names none.
pub fn page_size_default() -> (r: usize)
    ensures
        r == 50,
{
    50
}

#[derive(Clone, Copy, Debug, PartialEq, Eq, Structural)]
pub enum ServerError {
    NotFound,
    InvalidQuery,
    BadPageToken,
}

impl ServerError {
    pub fn reason(&self) -> (r: &'static str)
        ensures
            *self == ServerError::NotFound ==> r@ == "not found!"@,
            *self == ServerError::InvalidQuery ==> r@ == "invalid query!"@,
            *self == ServerError::BadPageToken ==> r@ == "bad page token!"@,
    {
        match self {
            ServerError::NotFound => "not found!",
            ServerError::InvalidQuery => "invalid query!",
            ServerError::BadPageToken => "bad page token!",
        }
    }

    /// The HTTP status code of the error.
    pub fn status(&self) -> (r: u16)
        ensures
            r == if *self == ServerError::NotFound { 404u16 } else { 400u16 },
    {
        match self {
            ServerError::NotFound => 404,
            ServerError::InvalidQuery | ServerError::BadPageToken => 400,
        }
    }
}

/// Lets through the episodes of the chosen seasons; with no season chosen,
/// every episode.
#[derive(Clone, Copy, Debug)]
pub struct SeasonFilter {
    pub any: bool,
    pub allowed: [bool; 14],
}

impl SeasonFilter {
    /// A filter letting through exactly the given seasons, or everything
    /// when none is given.
    pub fn new(seasons: &[SeasonId]) -> (r: SeasonFilter)
        ensures
            r.any == (seasons@.len() == 0),
            forall|s: SeasonId| r.allowed@[season_number(s) as int] <==> seasons@.contains(s),
    {
        let mut allowed = [false; 14];
        let mut i: usize = 0;
        while i < seasons.len()
            invariant
                0 <= i <= seasons@.len(),
                allowed@.len() == 14,
                forall|s: SeasonId| allowed@[season_number(s) as int] <==> exists|j: int| 0 <= j < i && seasons@[j] == s,
            decreases seasons@.len() - i,
        {
            let n = seasons[i].number();
            let ghost before = allowed@;
            allowed[n as usize] = true;
            proof {
                assert forall|s: SeasonId| allowed@[season_number(s) as int] <==> exists|j: int| 0 <= j < i + 1 && seasons@[j] == s by {
                    if season_number(s) == n {
                        assert(seasons@[i as int] == s) by {
                            lemma_season_number_injective(s, seasons@[i as int]);
                        }
                    } else {
                        if exists|j: int| 0 <= j < i + 1 && seasons@[j] == s {
                            let j = choose|j: int| 0 <= j < i + 1 && seasons@[j] == s;
                            assert(j != i);
                        }
                    }
                }
            }
            i = i + 1;
        }
        proof {
            assert forall|s: SeasonId| allowed@[season_number(s) as int] <==> seasons@.contains(s) by {
                if seasons@.contains(s) {
                    let j = choose|j: int| 0 <= j < seasons@.len() && seasons@[j] == s;
                }
            }
        }
        SeasonFilter { any: seasons.len() == 0, allowed }
    }
}

proof fn lemma_season_number_injective(a: SeasonId, b: SeasonId)
    requires
        season_number(a) == season_number(b),
    ensures
        a == b,
{
}

impl DocumentFilter<EpMetadata> for SeasonFilter {
    open spec fn accepts(&self, meta: EpMetadata) -> bool {
        self.any || (meta.season < 14 && self.allowed@[meta.season as int])
    }

    fn filter_document(&self, document_meta: &EpMetadata) -> (r: bool) {
        self.any || (document_meta.season < 14 && self.allowed[document_meta.season as usize])
    }

    fn needed(&self) -> (r: bool) {
        !self.any
    }
}

/// The document id of an episode: a thousand ids per season, the first
/// season starting at 1000, offset by the episode's sorting number. `None`
/// when that does not fit in 32 bits.
pub fn episode_id(season: SeasonId, sorting_number: usize) -> (r: Option<u32>)
    ensures
        ({
            let id = (season_number(season) as int + 1) * 1000 + sorting_number as int;
            &&& id <= u32::MAX ==> r == Some(id as u32)
            &&& id > u32::MAX ==> r is None
        }),
{
    let base = (season.number() as u32 + 1) * 1000;
    if sorting_number > (0xFFFF_FFFFu32 - base) as usize {
        return None;
    }
    Some(base + sorting_number as u32)
}

/// The document to index for an episode of a season, given its transcript.
pub fn episode_document(season: SeasonId, episode: Episode, text: String) -> (r: Option<DocumentData<StoredEpisode, EpMetadata>>)
    ensures
        match r {
            Some(d) => Some(d.id) == episode_id_spec(season, episode.sorting_number) && d.text == text
                && d.metadata.season == season_number(season) && d.data.title == episode.title
                && d.data.slug == episode.slug && d.data.docs_id == episode.docs_id && d.data.season == season,
            None => episode_id_spec(season, episode.sorting_number) is None,
        },
{
    match episode_id(season, episode.sorting_number) {
        Some(id) => Some(DocumentData {
            id,
            text,
            metadata: EpMetadata { season: season.number() },
            data: StoredEpisode { title: episode.title, slug: episode.slug, docs_id: episode.docs_id, season },
        }),
        None => None,
    }
}

pub open spec fn episode_id_spec(season: SeasonId, sorting_number: usize) -> Option<u32> {
    let id = (season_number(season) as int + 1) * 1000 + sorting_number as int;
    if id <= u32::MAX {
        Some(id as u32)
    } else {
        None
    }
}

/// `f` is the filter for the chosen seasons.
pub open spec fn filter_for(f: SeasonFilter, seasons: Seq<SeasonId>) -> bool {
    &&& f.any == (seasons.len() == 0)
    &&& forall|s: SeasonId| f.allowed@[season_number(s) as int] <==> seasons.contains(s)
}

/// The query a search request asks for: a phrase, or a parsed query
/// expression (optimized), filtered by the chosen seasons.
pub fn search_query<D, SM>(
    db: &Database<D, EpMetadata, SM>,
    text: &str,
    kind: QueryKind,
    seasons: &[SeasonId],
) -> (r: Result<DynamicQuery<SeasonFilter>, ServerError>)
    requires
        db.wf(),
    ensures
        kind == QueryKind::Phrase ==> (r matches Ok(q) && (q matches DynamicQuery::Phrase(p)
            && phrase_is(p, phrase_terms(db.term_map@, text@), p.document_filter)
            && filter_for(p.document_filter, seasons@))),
        kind == QueryKind::Advanced ==> match r {
            Ok(q) => lex(text@) matches Some(t) && (parse_tokens(t) matches Some(e)
                && exists|f: SeasonFilter| #[trigger] filter_for(f, seasons@) && compiles_to(q, e, db.term_map@, f, true)),
            Err(err) => err == ServerError::InvalidQuery && (lex(text@) is None || parse_tokens(lex(text@)->Some_0) is None),
        },
        r matches Ok(q) ==> q.wf(),
{
    let filter = SeasonFilter::new(seasons);
    assert(filter_for(filter, seasons@));
    match kind {
        QueryKind::Phrase => Ok(db.phrase_query(text, filter)),
        QueryKind::Advanced => match db.parse_query(text, filter, true) {
            Some(q) => Ok(q),
            None => Err(ServerError::InvalidQuery),
        },
    }
}

/// Results per page are capped at this many episodes.
pub const MAX_PAGE_SIZE: usize = 100;

/// The end of the run of results of the same document starting at `i`.
pub open spec fn run_end(docs: Seq<u32>, i: int) -> int
    decreases docs.len() - i,
{
    if i < 0 || i + 1 >= docs.len() || docs[i + 1] != docs[i] {
        if i < 0 || i >= docs.len() { i } else { i + 1 }
    } else {
        run_end(docs, i + 1)
    }
}

/// The runs of results of one document each, from `i` on: the document and
/// the start and end of its run.
pub open spec fn runs_from(docs: Seq<u32>, i: int) -> Seq<(u32, int, int)>
    decreases docs.len() - i,
{
    if i < 0 || i >= docs.len() {
        Seq::empty()
    } else {
        let e = run_end(docs, i);
        if e <= i || e > docs.len() {
            Seq::empty()
        } else {
            seq![(docs[i], i, e)] + runs_from(docs, e)
        }
    }
}

pub open spec fn min_usize(a: usize, b: usize) -> usize {
    if a <= b { a } else { b }
}

/// One page of search results grouped by episode: the runs of results of
/// one document each, skipping `offset` runs and taking at most
/// `min(page_size, 100)` of them.
pub open spec fn page_of(docs: Seq<u32>, offset: usize, page_size: usize) -> Seq<(u32, int, int)> {
    let runs = runs_from(docs, 0);
    let lo = if offset as int <= runs.len() { offset as int } else { runs.len() as int };
    let hi = if lo + min_usize(page_size, 100) as int <= runs.len() { lo + min_usize(page_size, 100) as int } else { runs.len() as int };
    runs.subrange(lo, hi)
}

proof fn lemma_run_end_bounds(docs: Seq<u32>, i: int)
    requires
        0 <= i < docs.len(),
    ensures
        i < run_end(docs, i) <= docs.len(),
    decreases docs.len() - i,
{
    if !(i + 1 >= docs.len() || docs[i + 1] != docs[i]) {
        lemma_run_end_bounds(docs, i + 1);
    }
}

proof fn lemma_runs_len(docs: Seq<u32>, i: int)
    requires
        0 <= i <= docs.len(),
    ensures
        runs_from(docs, i).len() <= docs.len() - i,
    decreases docs.len() - i,
{
    if i < docs.len() {
        lemma_run_end_bounds(docs, i);
        lemma_runs_len(docs, run_end(docs, i));
    }
}

/// Groups the results (given by their ids, in order) into one page of
/// episodes: for each, its document and the range of its results.
pub fn page_groups(ids: &[SentenceId], offset: usize, page_size: usize) -> (r: Vec<(u32, usize, usize)>)
    ensures
        r@.len() == page_of(ids@.map_values(|id: SentenceId| id.doc), offset, page_size).len(),
        forall|k: int| 0 <= k < r@.len() ==> {
            let g = page_of(ids@.map_values(|id: SentenceId| id.doc), offset, page_size)[k];
            (#[trigger] r@[k]).0 == g.0 && r@[k].1 as int == g.1 && r@[k].2 as int == g.2
        },
{
    let ghost docs = ids@.map_values(|id: SentenceId| id.doc);
    let limit = if page_size <= MAX_PAGE_SIZE { page_size } else { MAX_PAGE_SIZE };
    let ghost runs = runs_from(docs, 0);
    let mut out: Vec<(u32, usize, usize)> = Vec::new();
    let mut i: usize = 0;
    let mut seen: usize = 0;
    let n = ids.len();
    let ghost lo = if offset as int <= runs.len() { offset as int } else { runs.len() as int };
    let ghost hi = if lo + limit as int <= runs.len() { lo + limit as int } else { runs.len() as int };
    assert(runs_from(docs, 0) == runs.subrange(0, runs.len() as int));
    while i < n && out.len() < limit
        invariant
            n == ids@.len(),
            docs == ids@.map_values(|id: SentenceId| id.doc),
            runs == runs_from(docs, 0),
            limit == min_usize(page_size, 100),
            0 <= i <= n,
            seen <= runs.len(),
            runs_from(docs, i as int) == runs.subrange(seen as int, runs.len() as int),
            out@.len() <= limit,
            out@.len() == (if seen as int <= offset as int { 0 } else { seen - offset }),
            lo == (if offset as int <= runs.len() { offset as int } else { runs.len() as int }),
            hi == (if lo + limit as int <= runs.len() { lo + limit as int } else { runs.len() as int }),
            forall|k: int| 0 <= k < out@.len() ==> {
                let g = runs[offset + k];
                (#[trigger] out@[k]).0 == g.0 && out@[k].1 as int == g.1 && out@[k].2 as int == g.2
            },
        decreases n - i,
    {
        let doc = ids[i].doc;
        let mut j = i + 1;
        proof {
            lemma_run_end_bounds(docs, i as int);
        }
        while j < n && ids[j].doc == doc
            invariant
                n == ids@.len(),
                docs == ids@.map_values(|id: SentenceId| id.doc),
                i < j <= n,
                doc == docs[i as int],
                forall|q: int| i <= q < j ==> docs[q] == doc,
                run_end(docs, i as int) == run_end(docs, (j - 1) as int),
            decreases n - j,
        {
            j = j + 1;
        }
        proof {
            assert(run_end(docs, (j - 1) as int) == j);
            assert(runs_from(docs, i as int) == seq![(doc, i as int, j as int)] + runs_from(docs, j as int));
            let rs = runs.subrange(seen as int, runs.len() as int);
            assert(rs.len() > 0);
            assert(seen < runs.len());
            lemma_runs_len(docs, 0);
            assert(rs[0] == (doc, i as int, j as int));
            assert(runs[seen as int] == (doc, i as int, j as int));
            assert((seq![(doc, i as int, j as int)] + runs_from(docs, j as int)).drop_first() =~= runs_from(docs, j as int));
            assert(rs.drop_first() =~= runs.subrange(seen + 1, runs.len() as int));
            assert(runs_from(docs, j as int) == runs.subrange(seen + 1, runs.len() as int));
        }
        if seen >= offset {
            out.push((doc, i, j));
        }
        seen = seen + 1;
        i = j;
    }
    proof {
        assert(runs.subrange(lo, hi).len() == out@.len()) by {
            if i >= n {
                assert(runs_from(docs, i as int) == Seq::<(u32, int, int)>::empty());
                assert(seen == runs.len());
            }
        }
    }
    out
}

/// Where the next page starts, if this page was full.
pub fn next_page_offset(offset: usize, results_count: usize, page_size: usize) -> (r: Option<usize>)
    ensures
        results_count >= min_usize(page_size, 100) && offset + results_count <= usize::MAX ==> r == Some((offset + results_count) as usize),
        results_count < min_usize(page_size, 100) ==> r is None,
        offset + results_count > usize::MAX ==> r is None,
{
    let limit = if page_size <= MAX_PAGE_SIZE { page_size } else { MAX_PAGE_SIZE };
    if results_count >= limit {
        offset.checked_add(results_count)
    } else {
        None
    }
}

} // verus!
