//! The heads of an operation log.
//!
//! Every change to a store is recorded as an operation, and each operation
//! names the operations it was made on top of, so the log is a directed
//! acyclic graph. Its heads, the operations that no other operation builds
//! on, are kept as empty marker files in one directory, each named by the
//! lowercase hexadecimal form of an operation id. Writers that do not see
//! each other may leave several markers behind: of an operation and of an
//! ancestor of it, or of operations that diverge.
//!
//! This crate holds the entries of that directory as a value, decides which
//! of them mark a head, prunes the markers of ancestors, and orders
//! divergent heads for a merge. It reads and writes nothing itself:
//!
//! - [`hex_name`] is the naming of markers;
//! - [`op_store`] and [`operation`] are the ids and records of operations;
//! - [`dag_walk`] finds the heads among operations by walking to their
//!   ancestors;
//! - [`op_heads_store`] resolves marked operations to the heads of the log;
//! - [`simple_op_heads_store`] is the directory of markers;
//! - [`resolution`] resolves the heads step by step, for one who reads the
//!   directory and the operation store and takes the lock.

pub mod dag_walk;
pub mod hex_name;
pub mod op_heads_store;
pub mod op_store;
pub mod operation;
pub mod resolution;
pub mod simple_op_heads_store;
