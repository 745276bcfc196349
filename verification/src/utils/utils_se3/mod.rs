pub mod homogeneous_matrix;
pub mod implicit_dual_quaternion;
pub mod optima_rotation;
pub mod optima_se3_pose;
pub mod rotation_and_translation;
