//! Density-based clustering (DBSCAN) over a neighbourhood relation.
//!
//! The engine never looks at the entities themselves: it reads a square
//! relation `near`, where `near[i][j]` says that entity `j` lies within the
//! radius of entity `i`. Callers build that relation from whatever distance
//! their entities have, and get back a label for each entity by position.
//!
//! Conventions:
//! - an entity's neighbours are the *other* entities within its radius; an
//!   entity is a core point when it has more than `min_pts` of them, so with
//!   exactly `min_pts` neighbours it is not (the entity itself never counts);
//! - entities are told apart by position, so two equal entities are still
//!   two entities;
//! - a border point that more than one cluster reaches stays in the first
//!   cluster that reaches it; a noise point is promoted when a cluster
//!   reaches it later;
//! - cluster ids count from zero, in the order in which the pass over the
//!   entities, in input order, seeds clusters at unvisited core points.
use vstd::prelude::*;

pub mod engine;
pub mod laws;
pub mod properties;
pub mod relation;
pub mod results;

pub use engine::{cluster_labels, Label};
pub use relation::neighbours;
pub use results::{cluster, Results};
