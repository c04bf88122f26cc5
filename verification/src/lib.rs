//! Locates a running container by cascading resolution — credential profile,
//! cluster, service, task, runtime platform — and prepares the interactive
//! attach command for it.

pub mod cascade;
pub mod errors;
pub mod launch;
pub mod profiles;
pub mod select;
pub mod text;
