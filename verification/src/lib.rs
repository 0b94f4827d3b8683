//! Multi-modal transit routing core: a vector-valued cost model, a generalized
//! A* search over a stop set and a scheduled-connection table, and a per-stop
//! heuristic precache with a persistable text form.
//!
//! All geometry lives in a local planar frame with millimeter integer
//! coordinates; durations are whole seconds. Geographic projection, file and
//! image handling are collaborators outside this crate.

pub mod codec;
pub mod geom;
pub mod model;
pub mod pathing;
pub mod precache;
pub mod time;
