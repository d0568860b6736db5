//! Listing of a crate's versions: cursor-paginated date and semantic-version
//! orderings, and the grouping of versions into release tracks.

pub mod digits;
pub mod seek;
pub mod version_order;
pub mod pagination;
pub mod listing;
pub mod release_tracks;
