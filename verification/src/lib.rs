//! A bottom-up Datalog evaluator.
//!
//! A program declares base relations, which a relational store holds,
//! derives relations from them by rules, and asks queries. The evaluator
//! stratifies the predicates, infers the column types of the derived
//! relations, compiles each rule into a selection over the tables of its
//! body, and evaluates the relations stratum by stratum: a relation with
//! recursive rules by semi-naive steps until a step adds nothing.
//!
//! `syntax` holds the rules, their parser, and the checked and stratified
//! context of a program; `engine` the index of variables, type inference,
//! the rule compiler, the statements for the store, the fixpoint driver,
//! and the laws that hold of them; `text` and `error` what both need.

pub mod text;

pub mod error;

pub mod syntax;

pub mod engine;
