//! Scoped, reversible mutation of an environment-variable table.
//!
//! The crate models the process environment as a table of name/value
//! bindings ([`EnvTable`]). A scope guard ([`TempEnvScope`] or
//! [`TestEnvScope`]) snapshots the table at construction; releasing it
//! means asking for a [`RestorePlan`] — the variables to remove and the
//! bindings to set back — whose operations are proved to restore the
//! table to the snapshot exactly, whatever additions, changes or
//! removals happened in between.
//!
//! The guards never touch the ambient process environment themselves:
//! a thin shell around the crate reads the environment into an
//! [`EnvTable`], hands it to the guard, and performs the removals and
//! sets of the returned plan. Serialization of concurrent protected
//! sections is likewise the shell's duty; the guarantees here hold of
//! the tables a guard is actually shown.

pub mod laws;
pub mod model;

mod env_table;
mod plan;
mod scope;

pub use env_table::EnvTable;
pub use plan::compute_restore_plan;
pub use plan::RestorePlan;
pub use scope::TempEnvScope;
pub use scope::TestEnvScope;
