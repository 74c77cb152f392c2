//! Reader core for Potree v2 point clouds: the octree arena, the hierarchy
//! chunk parser, the Morton point codec and the routing of byte-range reads.
//!
//! The library reads no file and no socket. It says which bytes it needs
//! (`hierarchy_request`, `points_request`), the caller fetches them from
//! the transport that `get_delegate` names, and hands them in
//! (`load_hierarchy`, `load_points`).
//!
//! The library keeps to integers. Positions come out as steps of the
//! cloud's scale; the box and the spacing of a node follow from its name
//! and its level, and are the caller's to work out.

pub mod endian;
pub mod expansion;
pub mod hierarchy;
pub mod metadata;
pub mod morton;
pub mod octree;
pub mod point;
pub mod point_cloud;
pub mod prelude;
pub mod resource;
pub mod text;
