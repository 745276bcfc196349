pub mod robot_geometric_shape_module;
pub mod robot_kinematics_module;
pub mod robot_model_module;
pub mod robot_state_module;
