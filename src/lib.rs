//! Subnetwork ranking by structured small-group matchups.
//!
//! A network of `N` items is split by the generalised base exponential
//! representation (GBER) of `N` into blocks whose sizes are powers of the
//! matchup size. Matchups are generated inside each block level by level,
//! bridged between blocks, and finally expanded into pairwise comparisons.
use vstd::prelude::*;

pub mod common_types;
pub mod common_utilities;
pub mod gber;
pub mod network;
