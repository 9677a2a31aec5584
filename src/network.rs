//! Matchups of a network and the comparisons drawn from ranked matchups.
pub mod bridge;
pub mod comparison;
pub mod matchup;
pub mod subnetwork;

pub use matchup::{
    calculate_comparisons_number_for, calculate_matchups_number_for, take_elements_uniformly,
};
