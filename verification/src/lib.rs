//! A dependency-aware, resource-conflict-aware task scheduler.
//!
//! Callers register named units of work ("systems") with ordering rules
//! (`before`, `after`, `parallel`) and declared read/write access to
//! shared resources, each resource kind one bit of a mask. `Registry::sort`
//! compiles the rules into an execution plan: an ordered sequence of
//! groups, each group a set of systems whose combined access is free of
//! conflicts, so that the whole group may run concurrently. The plan is
//! balanced across a fixed number of worker threads, and a dispatcher runs
//! it pass by pass, handing each system an access context that the shared
//! resource store enforces at the point of access.
//!
//! The compiler's contract states, and the proofs establish: a plan exists
//! exactly when the rules are acyclic and every referenced stage is
//! registered; every registered system stands in exactly one group;
//! members of one group never write what another member touches; ordering
//! rules always point forward in the plan; and a `parallel` demand either
//! lands both systems in one group or fails compilation.

pub mod error;
pub mod inject;
mod graph;
pub mod resources;
pub mod registry;
pub mod rules;
pub mod sorted;
pub mod stage;
pub mod dispatcher;
pub mod world;
