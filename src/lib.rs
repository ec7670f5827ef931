//! An online item-item recommender: a sparse linear model whose item-pair
//! weights are trained one interaction at a time by FTRL-proximal, over
//! per-user interaction histories. Ratings and weights are fixed-point
//! integers (`ftrl::ONE` units per rating point).

pub mod ftrl;
pub mod identifiers;
pub mod interactions;
pub mod paths;
pub mod ranking;
pub mod slim;
