//! A calculator session: the state behind a small desktop calculator.
//!
//! Expressions are tokenized and evaluated by the `m_calc` crate; this crate
//! keeps the history of submitted expressions and the variable assignments,
//! and decides which expressions may be handed to the evaluator at all.

pub mod bindings;
pub mod calculator;
pub mod engine;
pub mod guard;
pub mod order;
pub mod syntax;
