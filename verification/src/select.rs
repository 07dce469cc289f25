//! Random episode selection: a uniform two-stage pick — first a season,
//! then an episode within it — for a requested show key.

use vstd::prelude::*;

use crate::catalog::{catalog_contains_key, catalog_show, Catalog};
use crate::types::{valid_show, ShowView};

verus! {

/// The result of one random pick, with 1-based display positions and
/// the stored titles, air date, and description carried unchanged.
pub struct EpisodeResponse {
    pub season_idx: usize,
    pub season_name: String,
    pub episode_idx: usize,
    pub episode_name: String,
    pub episode_aired: String,
    pub episode_description: String,
}

/// Mathematical view of an [`EpisodeResponse`].
pub struct ResponseView {
    pub season_idx: int,
    pub season_name: Seq<char>,
    pub episode_idx: int,
    pub episode_name: Seq<char>,
    pub episode_aired: Seq<char>,
    pub episode_description: Seq<char>,
}

impl View for EpisodeResponse {
    type V = ResponseView;

    open spec fn view(&self) -> ResponseView {
        ResponseView {
            season_idx: self.season_idx as int,
            season_name: self.season_name@,
            episode_idx: self.episode_idx as int,
            episode_name: self.episode_name@,
            episode_aired: self.episode_aired@,
            episode_description: self.episode_description@,
        }
    }
}

/// `s` and `e` are 0-based positions of a season and an episode of it.
pub open spec fn in_range_selection(show: ShowView, s: int, e: int) -> bool {
    &&& 0 <= s < show.seasons.len()
    &&& 0 <= e < show.seasons[s].episodes.len()
}

/// The response reporting the episode at 0-based position `(s, e)` of
/// the show: positions shifted to 1-based, every other field exactly
/// the stored value.
pub open spec fn response_of(show: ShowView, s: int, e: int) -> ResponseView {
    ResponseView {
        season_idx: s + 1,
        season_name: show.seasons[s].title,
        episode_idx: e + 1,
        episode_name: show.seasons[s].episodes[e].title,
        episode_aired: show.seasons[s].episodes[e].aired,
        episode_description: show.seasons[s].episodes[e].description,
    }
}

/// Relies on `rand::Rng::gen_range` applied to the half-open range
/// `0..n`: the result is drawn uniformly from that range, so it is
/// strictly below `n`; an empty range would panic, which the
/// precondition rules out.
#[verifier::external_body]
fn random_below(n: usize) -> (r: usize)
    requires
        n > 0,
    ensures
        r < n,
{
    let mut rng = rand::thread_rng();
    rand::Rng::gen_range(&mut rng, 0..n)
}

/// The deterministic part of a pick: the response for the episode at
/// 0-based `(season, episode)` of the show stored under `show_id`, or
/// `None` when the key is unknown or a position is out of range.
pub fn selection_at(
    catalog: &Catalog,
    show_id: &str,
    season: usize,
    episode: usize,
) -> (r: Option<EpisodeResponse>)
    requires
        catalog.wf(),
    ensures
        match r {
            Some(resp) => {
                &&& catalog_contains_key(catalog@, show_id@)
                &&& in_range_selection(
                    catalog_show(catalog@, show_id@),
                    season as int,
                    episode as int,
                )
                &&& resp@ == response_of(
                    catalog_show(catalog@, show_id@),
                    season as int,
                    episode as int,
                )
            },
            None => !catalog_contains_key(catalog@, show_id@) || !in_range_selection(
                catalog_show(catalog@, show_id@),
                season as int,
                episode as int,
            ),
        },
{
    let show = match catalog.lookup(show_id) {
        Some(s) => s,
        None => {
            return None;
        },
    };
    if season >= show.seasons.len() {
        return None;
    }
    let se = &show.seasons[season];
    proof {
        assert(show@.seasons[season as int] == show.seasons@[season as int]@);
    }
    if episode >= se.episodes.len() {
        assert(show@.seasons[season as int].episodes.len() == se.episodes@.len());
        return None;
    }
    let ep = &se.episodes[episode];
    proof {
        assert(se@.episodes[episode as int] == se.episodes@[episode as int]@);
    }
    Some(
        EpisodeResponse {
            season_idx: season + 1,
            season_name: se.title.clone(),
            episode_idx: episode + 1,
            episode_name: ep.title.clone(),
            episode_aired: ep.aired.clone(),
            episode_description: ep.description.clone(),
        },
    )
}

/// Picks a uniformly random season of the show stored under `show_id`,
/// then a uniformly random episode of that season, and reports it; an
/// unknown key yields `None` and nothing else does.
pub fn get_random_episode(catalog: &Catalog, show_id: &str) -> (r: Option<EpisodeResponse>)
    requires
        catalog.wf(),
    ensures
        r is Some <==> catalog_contains_key(catalog@, show_id@),
        r matches Some(resp) ==> exists|s: int, e: int|
            {
                &&& #[trigger] in_range_selection(catalog_show(catalog@, show_id@), s, e)
                &&& resp@ == response_of(catalog_show(catalog@, show_id@), s, e)
            },
        r matches Some(resp) ==> 1 <= resp@.season_idx <= catalog_show(
            catalog@,
            show_id@,
        ).seasons.len() && 1 <= resp@.episode_idx <= catalog_show(
            catalog@,
            show_id@,
        ).seasons[resp@.season_idx - 1].episodes.len(),
{
    let show = match catalog.lookup(show_id) {
        Some(s) => s,
        None => {
            return None;
        },
    };
    proof {
        assert(valid_show(show@));
    }
    let season = random_below(show.seasons.len());
    let se = &show.seasons[season];
    proof {
        assert(show@.seasons[season as int] == show.seasons@[season as int]@);
        assert(se@.episodes.len() > 0);
    }
    let episode = random_below(se.episodes.len());
    proof {
        assert(in_range_selection(show@, season as int, episode as int));
    }
    let r = selection_at(catalog, show_id, season, episode);
    proof {
        assert(r is Some);
    }
    r
}

} // verus!
