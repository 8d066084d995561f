//! An incremental triangulation of points in the plane, verified down to its
//! data structures.
//!
//! - [`arena`]: a vector with a free list that hands out stable handles.
//! - [`geo`]: points and axis-aligned boxes. Coordinates are integers that
//!   stand for positions; the library orders them and never computes with them.
//! - [`bvh`]: a four-way tree over boxes that answers which elements may hold
//!   a point.
//! - [`topology`]: the half-edge structure as a mathematical object, with the
//!   two local changes that an insertion is made of.
//! - [`mesh`]: the triangulation itself. It keeps the half-edge structure and
//!   its indexes in step, and puts every geometric question to a kernel that
//!   its user supplies.

pub mod arena;
pub mod bvh;
pub mod geo;
pub mod mesh;
pub mod topology;

pub use mesh::DelaunayMesh;
