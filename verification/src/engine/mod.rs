//! The evaluation engine.
//!
//! `analysis` indexes the variables of a rule and infers column types;
//! `compile` turns a rule into a selection, which `query` and `statement`
//! word in SQL; `runtime` drives the evaluation on the store, which `store`
//! calls, and `account` tells what it did. `model` says what the
//! statements mean, and with `meaning`, `negation`, `fixpoint`, `conform`,
//! `bound`, `whole`, `levels` and `typing` states the laws of the engine.

pub mod analysis;

pub mod query;

pub mod compile;

pub mod statement;

pub mod store;

pub mod runtime;

pub mod account;

pub mod model;

pub mod meaning;

pub mod negation;

pub mod fixpoint;

pub mod conform;

pub mod bound;

pub mod whole;

pub mod levels;

pub mod typing;
