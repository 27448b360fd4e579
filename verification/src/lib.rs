//! An arithmetic expression engine.
//!
//! A source text is parsed once into a tree of rule-tagged pairs
//! ([`engine::Calc::new`]); the tree is then resolved, as often as wanted and
//! against any table of variable names, into a [`plan::Plan`]: the arithmetic
//! steps in the order that precedence, associativity and parentheses give
//! them. The numeric fold over a plan is left to the caller.
//!
//! - [`grammar`]: the grammar, as functions on bytes, and what it is for a
//!   tree to spell a text;
//! - [`parser`]: the parser, proved to compute what the grammar says;
//! - [`position`]: syntax errors, with line and column;
//! - [`climber`]: the precedence climber, and the grouping by precedence that
//!   its result is held against;
//! - [`plan`]: plans;
//! - [`engine`]: the calculator;
//! - [`reading`]: every text has at most one reading, and the parser finds it;
//! - [`laws`]: what else holds of the engine as a whole.

pub mod climber;
pub mod engine;
pub mod grammar;
pub mod laws;
pub mod parser;
pub mod plan;
pub mod position;
pub mod reading;
