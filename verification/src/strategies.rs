pub mod excluded_from_siblings;
pub mod last_possible;
pub mod rule;

pub use excluded_from_siblings::ExcludedFromSiblingsInRow;
pub use last_possible::LastPossibleNumberStrategy;
pub use rule::Rule;
