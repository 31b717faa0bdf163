//! Difficulty profiles: each level maps to a fixed search depth, candidate
//! cap, and worker count. The time limit field is carried but inert.

use vstd::prelude::*;

verus! {

/// The closed set of difficulty levels.
#[derive(Debug, Clone, Copy, PartialEq, Eq, Structural)]
pub enum AIDifficulty {
    Easy,
    Medium,
    Hard,
}

impl AIDifficulty {
    /// Depth limit of the layered search fallback.
    pub fn get_max_depth(&self) -> (d: i32)
        ensures
            d == spec_max_depth(*self),
            0 <= d <= 2,
    {
        match self {
            AIDifficulty::Easy => 0,
            AIDifficulty::Medium => 1,
            AIDifficulty::Hard => 2,
        }
    }

    /// Cap on the number of candidate moves searched per node.
    pub fn get_max_moves(&self) -> (m: usize)
        ensures
            m == spec_max_moves(*self),
            3 <= m <= 8,
    {
        match self {
            AIDifficulty::Easy => 3,
            AIDifficulty::Medium => 5,
            AIDifficulty::Hard => 8,
        }
    }

    /// Worker count for the parallel search variant.
    pub fn get_parallel_threads(&self) -> (t: usize)
        ensures
            t == spec_parallel_threads(*self),
            1 <= t <= 2,
    {
        match self {
            AIDifficulty::Easy => 1,
            AIDifficulty::Medium => 1,
            AIDifficulty::Hard => 2,
        }
    }

    /// Inert time limit: present in the profile, never acted on.
    pub fn get_time_limit_ms(&self) -> (t: u64)
        ensures
            t == 0,
    {
        match self {
            AIDifficulty::Easy => 0,
            AIDifficulty::Medium => 0,
            AIDifficulty::Hard => 0,
        }
    }
}

pub open spec fn spec_max_depth(d: AIDifficulty) -> int {
    match d {
        AIDifficulty::Easy => 0,
        AIDifficulty::Medium => 1,
        AIDifficulty::Hard => 2,
    }
}

pub open spec fn spec_max_moves(d: AIDifficulty) -> int {
    match d {
        AIDifficulty::Easy => 3,
        AIDifficulty::Medium => 5,
        AIDifficulty::Hard => 8,
    }
}

pub open spec fn spec_parallel_threads(d: AIDifficulty) -> int {
    match d {
        AIDifficulty::Easy => 1,
        AIDifficulty::Medium => 1,
        AIDifficulty::Hard => 2,
    }
}

} // verus!
