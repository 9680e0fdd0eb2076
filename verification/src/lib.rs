//! The decision logic of a local music recommender: pseudo-random noise,
//! ranking of candidate tracks, history and genre adjustments to a track's
//! score, and the small rules that decide what is indexed and queued.

pub mod random;
pub mod ranking;
pub mod text;
pub mod scoring;
pub mod features;
pub mod catalog;
