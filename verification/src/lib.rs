//! Front end for a minimal eight-symbol imperative language: a parser that
//! turns source text into a nested instruction tree while validating bracket
//! balance, and a peephole optimizer that rewrites that tree toward a fixed
//! point with a bounded number of passes.

pub mod optimization;
pub mod parser;
