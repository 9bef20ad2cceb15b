//! A relativistic replicated key-value store.
//!
//! Each mutation is an immutable, content-addressed event placed at a point
//! of a shared spacetime. Replicas gossip events; an append-only DAG of
//! causal parent links holds the partial order, and its heads are the
//! concurrency frontier. A light-cone layer withholds every inbound message
//! until its propagation delay has passed.
//!
//! - [`spacetime`]: coordinates and the causal partial order on them.
//! - [`event`]: events, their canonical encoding and their content hash.
//! - [`model`]: the DAG and the replica as mathematical values, with the
//!   invariants of the store proved for every sequence of admissions.
//! - [`convergence`]: replicas that were offered the same events hold the
//!   same DAG in the end, whatever the order of arrival.
//! - [`dag`]: the DAG itself, on a stable graph and a hash index.
//! - [`physics`]: the light-cone layer, a queue ordered by deadline.
//! - [`node`]: the replica's decisions: authoring, gossip, intake, orphans.
//! - [`protocol`], [`wire`]: the messages and their byte format.
//! - [`simulation`]: packets between replicas and the register of a cluster.
//! - [`hashing`], [`ident`], [`store`], [`text`]: the calls into BLAKE3,
//!   UUID, petgraph, dashmap and the standard library's UTF-8 check, each
//!   behind a contract that is taken on trust.
//!
//! Real arithmetic (the Minkowski interval, distances, delays) and the wall
//! clock are the caller's: the library takes the sign of an interval, a
//! delay in nanoseconds and a reading of a monotonic clock as plain values.

pub mod convergence;
pub mod dag;
pub mod event;
pub mod hashing;
pub mod ident;
pub mod model;
pub mod node;
pub mod physics;
pub mod protocol;
pub mod simulation;
pub mod spacetime;
pub mod store;
pub mod text;
pub mod wire;
