//! Evaluation of arithmetic formulas over named variables: a formula is
//! normalized, split into factors, put in evaluation order and reduced to an
//! expression tree, each stage with a proved contract.

pub mod equation_handler;
pub mod evaluator;
pub mod expr;
pub mod geometry;
pub mod normalizer;
pub mod notation;
pub mod precedence;
pub mod scanner;
pub mod text;
pub mod variables;
pub mod vputils;
