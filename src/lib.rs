//! Keeps local draft commit stacks on top of a moving main branch: a commit
//! graph with its queries, an event log replayed into commit visibility,
//! rebase plans that skip already-applied patches and respect public
//! commits, their step-by-step execution, and the decisions of a sync.

pub mod dag;
pub mod eventlog;
pub mod execute;
pub mod rewrite;
pub mod sync;
