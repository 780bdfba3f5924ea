//! Minimum-cost open routes over directed, weighted graphs: an exact
//! bitmask dynamic program for small instances, two nearest-neighbour
//! heuristics for larger or incomplete graphs, and a route validator.
//!
//! Costs are whole numbers of cost units (`u64` per arc, `u128` per route).
//! An absent arc is `None` in a dense matrix and a missing key in a sparse
//! map (`HashMap<usize, HashMap<usize, u64>>`, from node to the nodes it
//! reaches and the costs of those arcs). Cost tables in text form are read
//! with costs in millionths (`UNITS_PER_COST` units per written unit).
//!
//! `laws` states, and proves, how the solvers relate to each other and to
//! the validator.
use vstd::prelude::*;

pub mod model;
pub mod flags;
pub mod text;
pub mod fragments;
pub mod exact;
pub mod greedy;
pub mod validate;
pub mod tables;
pub mod table_text;
pub mod laws;

pub use exact::{held_karp_algorithm, MAX_EXACT_NODES};
pub use fragments::nearest_neighbor_sparse;
pub use greedy::nearest_neighbor_full_graph;
pub use model::{SolveError, SolverResult};
pub use table_text::{parse_cost_table, TableError, UNITS_PER_COST};
pub use tables::{map_from_edges, matrix_from_edges};
pub use validate::{is_valid_route, RouteCheck, COST_TOLERANCE};
