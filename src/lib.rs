//! In-memory relations of integer rows, an equi-join over shared column
//! names, and a planner that orders relations so that each one, but the
//! first of its connected group, follows a relation it shares a column with.

pub mod graph;
pub mod join;
pub mod laws;
pub mod planner;
pub mod relation;
