//! Decision logic of a gradient-boosted tree learner: index planning, row and
//! tree partitioning, sampling, selection, key hashing and model bookkeeping.
//!
//! Floating-point values enter the library as IEEE-754 bit patterns
//! ([`num::Num`]); the library compares and classifies them, and never does
//! arithmetic on them.

pub mod adjust;
pub mod bits;
pub mod bitset;
pub mod columns;
pub mod combos;
pub mod corrective;
pub mod course;
pub mod ctr;
pub mod ctr_build;
pub mod ctr_select;
pub mod ctr_tables;
pub mod dataset;
pub mod early_stop;
pub mod errors;
pub mod evidence;
pub mod evidence_tables;
pub mod expert;
pub mod expert_plan;
pub mod fit;
pub mod goss;
pub mod gradients;
pub mod groups;
pub mod guided;
pub mod hashing;
pub mod interactions;
pub mod leaves;
pub mod masks;
pub mod model;
pub mod multiclass;
pub mod num;
pub mod order;
pub mod predict;
pub mod pressure;
pub mod prior;
pub mod prior_cut;
pub mod random;
pub mod report;
pub mod robust;
pub mod rounds;
pub mod sampling;
pub mod select;
pub mod slots;
pub mod tally;
pub mod task;
pub mod tree;
pub mod tree_edit;
