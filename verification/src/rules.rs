//! Threshold derivation for the transition rule.
//!
//! Each rule variant turns the full neighbor count `n = 3^dim - 1` into
//! three integer thresholds: the fewest alive neighbors a cell needs to
//! avoid death, the fewest it needs to come to life, and the most it can
//! have before dying. The rounding direction of each formula is part of
//! the contract: the breed threshold rounds up, the other two round down.

use vstd::prelude::*;
use vstd::arithmetic::power::pow;
use vstd::arithmetic::div_mod::{lemma_fundamental_div_mod, lemma_mod_bound};

verus! {

/// Selects how the three thresholds are derived from the dimension count.
pub enum LifeRules {
    BasicRules,
    PercentageRules,
}

/// Number of neighbors in a full Moore neighborhood of one cell.
pub open spec fn full_neighbor_count(dim: nat) -> int {
    pow(3, dim) - 1
}

/// Fewest alive neighbors a cell needs to stay alive: floor(n / 4) for
/// both variants.
pub open spec fn spec_min_neighbors(rules: LifeRules, n: int) -> int {
    match rules {
        LifeRules::BasicRules => n / 4,
        LifeRules::PercentageRules => n / 4,
    }
}

/// Fewest alive neighbors that bring a cell to life: floor((n + 1) / 3)
/// for Basic; ceil(11n / 32) for Percentage (11/32 == 0.34375), written
/// with floor division.
pub open spec fn spec_min_breed_neighbors(rules: LifeRules, n: int) -> int {
    match rules {
        LifeRules::BasicRules => (n + 1) / 3,
        LifeRules::PercentageRules => (11 * n + 31) / 32,
    }
}

/// Most alive neighbors a cell can have before dying: floor((n + 1) / 3)
/// for Basic; floor(13n / 32) for Percentage (13/32 == 0.40625).
pub open spec fn spec_max_neighbors(rules: LifeRules, n: int) -> int {
    match rules {
        LifeRules::BasicRules => (n + 1) / 3,
        LifeRules::PercentageRules => 13 * n / 32,
    }
}

/// For every variant the derived thresholds are ordered: the survival
/// minimum never exceeds the death maximum, the maximum never exceeds the
/// neighbor count itself, and the breed threshold never exceeds n + 1.
pub proof fn lemma_thresholds_ordered(rules: LifeRules, n: int)
    requires
        0 <= n,
    ensures
        0 <= spec_min_neighbors(rules, n),
        spec_min_neighbors(rules, n) <= spec_max_neighbors(rules, n),
        spec_max_neighbors(rules, n) <= n,
        0 <= spec_min_breed_neighbors(rules, n) <= n + 1,
{
    lemma_fundamental_div_mod(n, 4);
    lemma_mod_bound(n, 4);
    lemma_fundamental_div_mod(n + 1, 3);
    lemma_mod_bound(n + 1, 3);
    lemma_fundamental_div_mod(11 * n + 31, 32);
    lemma_mod_bound(11 * n + 31, 32);
    lemma_fundamental_div_mod(13 * n, 32);
    lemma_mod_bound(13 * n, 32);
}

} // verus!
