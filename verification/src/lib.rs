//! Open definability of relations in finite algebras.

pub mod engines;
pub mod first_order;
pub mod hit;
pub mod splitting;
pub mod generator;
pub mod search;
pub mod impure;
pub mod parser;
pub mod preprocessing;
pub mod unary;
pub mod util;
pub mod stone;
pub mod strategy;
pub mod approx;
pub mod strs;
pub mod text;
