pub mod utils_console;
pub mod utils_errors;
pub mod utils_files;
pub mod utils_generic_data_structures;
pub mod utils_robot;
pub mod utils_se3;
pub mod utils_shape_geometry;
