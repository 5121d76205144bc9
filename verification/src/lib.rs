//! Hierarchical pathfinding over a composite terrain graph.
//!
//! A dense grid and sparse overlay layers (lifts, parking lots, a trail
//! network) are composed into a graph view; a single-source shortest-path
//! search runs over the view with an agent-parameterized weight function,
//! and a best-first macro planner searches over sequences of decisions,
//! each of which is evaluated with the shortest-path search.

/// Packed 2D coordinates, the shared node identity.
pub mod coord;
/// The abstract cost contract (zero, maximum, saturating addition, order).
pub mod cost;
/// The best-first macro-decision planner.
pub mod decision;
/// The graph-layer capability and the composed graph view.
pub mod graph;
/// The dense rectangular grid layer.
pub mod grid;
/// The textual height-map importer.
pub mod importer;
/// Sparse overlay layers: lifts, parking lots, and their composition.
pub mod layers;
/// Routes and their costs.
pub mod path;
/// The single-source shortest-path search.
pub mod search;
/// Agent state, the agent-biased weight function, and journey planning.
pub mod skiier;
/// Terrain node values and terrain construction.
pub mod terrain;
/// The arena-backed trail network.
pub mod trails;
