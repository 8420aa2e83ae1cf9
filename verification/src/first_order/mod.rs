//! First-order structures: relations, operations, models, terms and formulas.

pub mod formulas;
pub mod models;
pub mod relops;
