//! A constraint algebra over package versions and build numbers.
//!
//! The central type, [`constraints::MatchSpecConstraints`], represents the set
//! of acceptable packages as a disjunctive normal form: an OR-collection of
//! AND-terms, each AND-term constraining the version and the build number by a
//! range. The algebra supplies the operations a conflict-driven dependency
//! resolver needs: `empty`, `full`, `singleton`, `intersection`, `complement`
//! and `contains`, together with a memoization table for `complement`.

pub mod channel;
pub mod constraints;
pub mod laws;
pub mod version;
