//! The data model: episodes, seasons, shows, and their mathematical views.

use vstd::prelude::*;

verus! {

/// One episode of a season: display title, air date (opaque, display
/// only), and free-text description.
pub struct Episode {
    pub title: String,
    pub aired: String,
    pub description: String,
}

/// One season of a show: display title and its episodes in broadcast
/// order.
pub struct Season {
    pub title: String,
    pub episodes: Vec<Episode>,
}

/// One show: display title and its seasons in order of appearance.
pub struct Show {
    pub title: String,
    pub seasons: Vec<Season>,
}

/// Mathematical view of an [`Episode`].
pub struct EpisodeView {
    pub title: Seq<char>,
    pub aired: Seq<char>,
    pub description: Seq<char>,
}

/// Mathematical view of a [`Season`].
pub struct SeasonView {
    pub title: Seq<char>,
    pub episodes: Seq<EpisodeView>,
}

/// Mathematical view of a [`Show`].
pub struct ShowView {
    pub title: Seq<char>,
    pub seasons: Seq<SeasonView>,
}

impl View for Episode {
    type V = EpisodeView;

    open spec fn view(&self) -> EpisodeView {
        EpisodeView { title: self.title@, aired: self.aired@, description: self.description@ }
    }
}

impl View for Season {
    type V = SeasonView;

    open spec fn view(&self) -> SeasonView {
        SeasonView {
            title: self.title@,
            episodes: self.episodes@.map_values(|e: Episode| e@),
        }
    }
}

impl View for Show {
    type V = ShowView;

    open spec fn view(&self) -> ShowView {
        ShowView {
            title: self.title@,
            seasons: self.seasons@.map_values(|s: Season| s@),
        }
    }
}

/// A show is valid when it has at least one season and every season has
/// at least one episode; only valid shows may enter a catalog.
pub open spec fn valid_show(s: ShowView) -> bool {
    &&& s.seasons.len() > 0
    &&& forall|i: int| 0 <= i < s.seasons.len() ==> #[trigger] s.seasons[i].episodes.len() > 0
}

/// Decides whether a show definition is valid.
pub fn check_show(show: &Show) -> (r: bool)
    ensures
        r == valid_show(show@),
{
    let n = show.seasons.len();
    if n == 0 {
        return false;
    }
    let mut i: usize = 0;
    while i < n
        invariant
            i <= n,
            n == show.seasons.len(),
            n > 0,
            forall|j: int| 0 <= j < i ==> #[trigger] show@.seasons[j].episodes.len() > 0,
        decreases n - i,
    {
        if show.seasons[i].episodes.len() == 0 {
            assert(show@.seasons[i as int].episodes.len() == 0);
            return false;
        }
        assert(show@.seasons[i as int].episodes.len() > 0);
        i = i + 1;
    }
    true
}

} // verus!
