//! A symbolic mathematics library: a scanner and recursive-descent
//! parser for single-variable expressions, an immutable expression
//! tree, and the tree transformations on it — symbolic
//! differentiation, algebraic simplification, variable substitution,
//! numeric and polynomial integration — together with a LaTeX-like
//! renderer. Numeric literals are exact machine rationals; every
//! operation that could leave the machine range reports an error
//! instead of wrapping.
//!
//! Every function carries its contract: the parser returns exactly
//! what the grammar derives, each transformation returns exactly what
//! its specification function gives, and the simplifier's sweep is
//! proved to be a fixed point — simplifying twice is simplifying
//! once.
pub mod rat;
pub mod scanner;
pub mod parser;
pub mod substitute;
pub mod differentiate;
pub mod simplify;
pub mod integrate;
pub mod render;

pub use rat::Rat;
