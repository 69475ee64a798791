//! Analysis algorithms over decision diagrams: counting, probability,
//! sensitivity, minimal solutions and path enumeration, on binary and
//! multi-valued diagrams held in plain node tables.

pub mod common;
pub mod numeric;
pub mod table;
pub mod levels;
pub mod traverse;
pub mod bdd_count;
pub mod bdd_prob;
pub mod bdd_minsol;
pub mod bdd_path;
pub mod bdd_sets;
pub mod mtmdd2;
pub mod mdd_count;
pub mod mdd_prob;
pub mod mdd_minsol;
pub mod mdd_path;
pub mod rpn;
