//! Exact boolean operations (intersection, union, difference, xor) and
//! polygon offsetting over signed 64-bit integer coordinates.
#![verifier::loop_isolation(false)]

pub mod geom;
pub mod model;
pub mod subdiv;
pub mod emit;
pub mod stitch;
pub mod ops;
pub mod offset;

pub use geom::MAX_COORD;
pub use model::{Path, PathIter, PathRef, Paths, PathsIter, Operation, JoinType};
pub use model::{DEFAULT_ARC_TOLERANCE_MILLI, DEFAULT_MITER_LIMIT_MILLI};
pub use ops::{execute, intersection, union, difference, xor};
pub use offset::offset;
