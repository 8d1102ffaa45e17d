//! A steady-state simulator for redstone-like signal networks.
//!
//! Components (torches, dusts, solid blocks, repeaters) live in a
//! [`RedstoneArena`] and refer to each other by index.  A frame-based
//! fixed-point solver propagates signal changes until nothing is left to
//! do.
//!
//! - [`redstone`], [`redstate`], [`frame`]: the nodes, their state and
//!   logical time.
//! - [`circuit`], [`linking`], [`plan`]: what makes a table of nodes a
//!   circuit, and how nodes are wired.
//! - [`dispatch`]: how each kind of node recomputes its state.
//! - [`walk`]: the breadth-first walk that collects the initial work.
//! - [`solver`]: the solver as a machine that takes one step at a time, and
//!   the loop that takes those steps.
//! - [`laws`], [`termination`]: what holds of every dispatch and of every run.
//! - [`arena`], [`constraints`], [`graph`]: the arena that owns the nodes and
//!   the work lists that are solved on it.
//! - [`vec3`], [`voxels`], [`world`]: a grid of cells from which a circuit
//!   is wired by adjacency.

pub mod arena;
pub mod circuit;
pub mod constraints;
pub mod dispatch;
pub mod frame;
pub mod graph;
pub mod laws;
pub mod linking;
pub mod plan;
pub mod redpower;
pub mod redstate;
pub mod redstone;
pub mod solver;
pub mod termination;
pub mod vec3;
pub mod voxels;
pub mod walk;
pub mod world;

pub use arena::{add_weighted_edge, can_add_weighted_edge, can_lock, lock, RedstoneArena};
pub use constraints::ConstraintGraph;
pub use dispatch::Constraint;
pub use frame::Frame;
pub use graph::RedstoneGraph;
pub use redpower::Redpower;
pub use redstate::Redstate;
pub use redstone::{Block, Redstone, RedstoneDust, RedstoneNode, RedstoneRepeater, RedstoneTorch};
pub use solver::{NonConvergent, SolveEvent, SolveStats};
pub use walk::RedstoneIter;
