pub mod edge_shape;
pub mod indexed_edge;
pub mod neighbor_edge;
pub mod minutia_type;
pub mod skeleton_type;
pub mod skeleton_types;
pub mod skeleton_minutia;
pub mod skeleton;
pub mod skeleton_ridge;
