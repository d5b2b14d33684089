//! Verified decision structures for sector-coverage reduction: a reduced
//! ordered multi-terminal decision DAG, the staged sector-coverage MTBDD
//! compiled from normalized bad formulas, and supporting arithmetic.

pub mod coverage_decision_dag;
pub mod live_leaf_queue;
pub mod parametric_sector_formula_ir;
pub mod parametric_elimination;
pub mod parametric_sector_mtbdd;
pub mod parametric_sector_mtbdd_certificate;
pub mod parametric_sector_residual_path;
pub mod persistent_parametric_elimination;
pub mod product_locus_boolean_cover;
pub mod sector_mask;
