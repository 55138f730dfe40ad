//! Differential growth of a closed planar polygon, one generation per step.
//!
//! The library owns everything about a step that is discrete: the ring
//! topology of the polygon, the order in which the force kernels visit
//! vertices, edges and pairs, where each contribution is added and where it
//! is subtracted, the stream of random draws, the edge split and the
//! generation count. The force laws themselves are arithmetic on real
//! numbers; a caller hands them in as functions (see `sim::Kernels`), and
//! every contract is stated for whatever those functions return.

pub mod forces;
pub mod function;
pub mod geometry;
pub mod remesh;
pub mod ring;
pub mod rng;
pub mod sim;
pub mod view_mode;
