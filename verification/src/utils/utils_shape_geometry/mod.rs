pub mod geometric_shape;
pub mod shape_collection;
