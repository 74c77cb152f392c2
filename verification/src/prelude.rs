//! The names that most users of the reader need.

pub use crate::octree::snapshot::OctreeNodeSnapshot;
pub use crate::point::QuantizedPoint;
pub use crate::point_cloud::PotreePointCloud;
pub use crate::resource::ResourceLoader;

// Error types
pub use crate::point::LoadPointsError;
pub use crate::point_cloud::LoadPotreePointCloudError;
pub use crate::point_cloud::ReadHierarchyError;
