//! Assignment of student teams to (time slot, tutor) pairs: the data model,
//! a checker for proposed schedules, and a complete search that produces a
//! schedule whenever one exists.
pub mod types;
pub mod validator;
pub mod solver;
pub mod instances;
pub mod capacity;
