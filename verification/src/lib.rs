//! Versioned schema migrations for a local embedded database.
//!
//! A [`migration::Migration`] is a single schema-evolution step: a positive
//! version number, a description, and a script of database statements. The
//! [`migrator::Migrator`] applies an ordered list of such steps to a
//! [`database::Database`] exactly once each, in ascending version order,
//! recording every applied version so that re-running the whole list is a
//! no-op.

pub mod database;
pub mod laws;
pub mod migration;
pub mod migrator;
