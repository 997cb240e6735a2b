//! The abstract syntax of programs, their validation and stratification.

pub mod ast;

pub mod stratify;

pub mod context;

pub mod parser;
