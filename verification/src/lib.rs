//! Photo culling core: pHash near-duplicate grouping and the decision rules
//! behind import, thumbnails, analysis and export.

pub mod grouping;
pub mod text;
pub mod digest;
pub mod model;
pub mod progress;
pub mod batch;
pub mod thumbnails;
pub mod photos;
pub mod paths;
pub mod scanner;
pub mod projects;
pub mod browse;
pub mod sidecar;
pub mod db;
pub mod regroup;
pub mod cluster_laws;
