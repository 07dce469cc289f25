//! A catalog of television shows, grouped by season, with a verified
//! loader, a deterministic sorted listing, and uniform random episode
//! selection.

pub mod catalog;
pub mod select;
pub mod strorder;
pub mod types;

pub use catalog::{get_shows, load_catalog, Catalog, LoadError};
pub use select::{get_random_episode, selection_at, EpisodeResponse};
pub use strorder::lex_lt;
pub use types::{Episode, Season, Show, valid_show};
