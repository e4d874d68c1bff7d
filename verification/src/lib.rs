//! Keeps hot executable files resident in memory: the decisions of the
//! scanner, the dispatcher and the locker, as verified functions on plain
//! values. Reading the process listing, starting workers, and mapping and
//! unmapping files are left to the caller.

pub mod assoc;
pub mod text;
pub mod paths;
pub mod maps;
pub mod procfs;
pub mod namespace;
pub mod scanner;
pub mod protocol;
pub mod registry;
pub mod residency;
pub mod history;
