//! Selection of overall champions from a set of ranked entrants grouped by
//! an age category.
//!
//! For each age category the highest-rated entrant is retained as that
//! category's best; two entrants of one category with equal rating form a
//! draw and both become candidates.  A candidate survives only if no
//! category with a strictly smaller key holds a best whose rating is equal
//! to or higher than its own.  The surviving candidates are returned in
//! ascending category order.

pub mod laws;
pub mod model;
pub mod player;
pub mod select;

pub use player::ChessPlayer;
pub use select::get_champions;
