//! Combination engine for pairing two sets of geographic points.
//!
//! Points travel as flat coordinate buffers (`[lat0, lon0, lat1, lon1, ...]`).
//! This library holds the integer side of the engine: how many points a
//! buffer carries, how the cross product of two point sets is enumerated,
//! how large it is, and which pairs rank best once every pair has a score.
//! Scores are handed in as `u64` ranking keys whose order is the order of
//! the scores; the spherical math that produces them lives with the caller.

mod combos;
mod ranking;

pub use combos::{combination_count, cross_pairs, get_combination_count, pair_at, pair_of, point_count};
pub use ranking::{
    is_top, keeps_only_best, lemma_empty_set_gives_nothing, lemma_top_is_unique, ranked_below,
    ranks_before, select_best,
};
