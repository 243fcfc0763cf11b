//! Automated mechanism design: social choice rules (pairwise majority,
//! Condorcet winners, Borda count, approval voting, dictatorship tests) and
//! grid enumeration for misreport search, with verified contracts.

pub mod grid;
pub mod laws;
pub mod scoring;
pub mod seq_util;
pub mod social_choice;
pub mod tally;

pub use grid::grid_assignments;
pub use social_choice::{
    borda_rule, dictatorial_rule, is_dictatorial, ArrowProperties, Preference, PreferenceProfile,
};
pub use tally::Tally;
