//! A library for structural source-code mutation driven by protocol actions.
pub mod text;
pub mod edits;
pub mod models;
pub mod registry;
pub mod helpers;
pub mod syntax;
pub mod engine;
pub mod actions;
pub mod cli;
