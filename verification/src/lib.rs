//! Pooling of resident nailgun servers for JVM build actions.
//!
//! A JVM command line is split into the arguments that boot a nailgun server
//! and the arguments that a lightweight client forwards to it. Servers are
//! kept in a pool under a logical name and reused as long as the digest of
//! their start request stays the same and the process is still alive.
//!
//! This crate decides and computes; it does not act. Spawning processes,
//! touching the disk and waiting are left to the caller, which performs the
//! action a step hands out and reports back what happened. The one thing
//! taken on trust is the SHA-256 implementation behind the digests.

pub mod announcement;
pub mod async_semaphore;
pub mod concurrency;
pub mod digest;
pub mod fingerprint;
pub mod fingerprint_laws;
pub mod nailgun_pool;
pub mod parsed_jvm_command_lines;
pub mod pool_laws;
pub mod request;
pub mod runner;
pub mod runner_laws;
pub mod text;
pub mod translator;
