//! A verified core for a logic-programming authorization engine: terms and
//! constraint literals, a binding log with a unifier, goal runs with
//! backtracking, negation by inversion, lazy rule queries, role declarations
//! with their validation and permission checks, and rule diagnostics.

pub mod terms;
pub mod bindings;
pub mod inverter;
pub mod vm;
pub mod query;
pub mod roles;
pub mod kb;
pub mod diagnostics;
pub mod warnings;
