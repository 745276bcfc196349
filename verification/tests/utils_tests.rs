use optima::utils::utils_console::{optima_print_string, style_text, PrintColor};
use optima::utils::utils_errors::OptimaError;
use optima::utils::utils_files::{
    AssetFolderLocation, AssetFolderUtils, AssetsDirConfig, FileUtils, RobotFolderUtils,
};
use optima::utils::utils_generic_data_structures::SquareArray2D;

#[test]
fn square_array_mirrors_writes() {
    let mut array = SquareArray2D::new(3, true, 0u32);
    assert_eq!(array.side_length(), 3);
    assert!(array.symmetric());
    assert_eq!(array.replace_data(5, 0, 2), Ok(()));
    assert_eq!(array.data_cell(0, 2), Ok(5));
    assert_eq!(array.data_cell(2, 0), Ok(5));
    assert_eq!(array.data_cell(1, 2), Ok(0));
    assert_eq!(array.data_cell(3, 0), Err(OptimaError::IndexOutOfBounds { index: 3, length: 3 }));
    assert_eq!(array.data_cell(0, 4), Err(OptimaError::IndexOutOfBounds { index: 4, length: 3 }));
    assert_eq!(
        array.replace_data(1, 7, 9),
        Err(OptimaError::IndexOutOfBounds { index: 7, length: 3 })
    );
    array.append_new_row_and_column(9);
    assert_eq!(array.side_length(), 4);
    assert_eq!(array.data_cell(3, 1), Ok(9));
    assert_eq!(array.data_cell(1, 3), Ok(9));
    assert_eq!(array.data_cell(2, 0), Ok(5));
    let copy = array.duplicate();
    assert_eq!(copy.data_cell(0, 2), Ok(5));
    let mut plain = SquareArray2D::new(2, false, 0u32);
    assert_eq!(plain.replace_data(5, 0, 1), Ok(()));
    assert_eq!(plain.data_cell(0, 1), Ok(5));
    assert_eq!(plain.data_cell(1, 0), Ok(0));
}

#[test]
fn index_check() {
    assert_eq!(OptimaError::new_check_for_idx_out_of_bound_error(2, 3), Ok(()));
    assert_eq!(
        OptimaError::new_check_for_idx_out_of_bound_error(3, 3),
        Err(OptimaError::IndexOutOfBounds { index: 3, length: 3 })
    );
}

#[test]
fn color_triples() {
    assert_eq!(PrintColor::Plain.get_color_triple(), (0, 0, 0));
    assert_eq!(PrintColor::Blue.get_color_triple(), (0, 0, 255));
    assert_eq!(PrintColor::Green.get_color_triple(), (0, 255, 0));
    assert_eq!(PrintColor::Red.get_color_triple(), (255, 0, 0));
    assert_eq!(PrintColor::Yellow.get_color_triple(), (255, 255, 0));
    assert_eq!(PrintColor::Cyan.get_color_triple(), (0, 255, 255));
    assert_eq!(PrintColor::Magenta.get_color_triple(), (255, 0, 255));
}

#[test]
fn styled_text_is_wrapped_in_control_sequences() {
    assert_eq!(optima_print_string("robot", PrintColor::Plain, true), "\u{1b}[1mrobot\u{1b}[m");
    assert_eq!(optima_print_string("robot", PrintColor::Plain, false), "robot\u{1b}[m");
    assert_eq!(style_text("x", "<c>", true), "\u{1b}[1m<c>x\u{1b}[m");
    assert_eq!(style_text("x", "<c>", false), "<c>x\u{1b}[m");
    let colored = optima_print_string("x", PrintColor::Red, true);
    assert!(colored.starts_with("\u{1b}[1m"));
    assert!(colored.ends_with("x\u{1b}[m"));
}

#[test]
fn places_in_the_asset_folder() {
    let name = "ur5".to_string();
    assert_eq!(AssetFolderLocation::Robots.get_path_wrt_asset_folder(), vec!["optima_robots"]);
    assert_eq!(
        AssetFolderLocation::Robot { robot_name: name.clone() }.get_path_wrt_asset_folder(),
        vec!["optima_robots", "ur5"]
    );
    assert_eq!(
        AssetFolderLocation::RobotMeshes { robot_name: name.clone() }.get_path_wrt_asset_folder(),
        vec!["optima_robots", "ur5", "meshes"]
    );
    assert_eq!(
        AssetFolderLocation::RobotPreprocessedData { robot_name: name.clone() }
            .get_path_wrt_asset_folder(),
        vec!["optima_robots", "ur5", "preprocessed_data"]
    );
    assert_eq!(
        AssetFolderLocation::RobotConvexShapes { robot_name: name.clone() }
            .get_path_wrt_asset_folder(),
        vec!["optima_robots", "ur5", "preprocessed_data", "convex_shapes"]
    );
    assert_eq!(
        AssetFolderLocation::RobotConvexSubcomponents { robot_name: name.clone() }
            .get_path_wrt_asset_folder(),
        vec!["optima_robots", "ur5", "preprocessed_data", "convex_shape_subcomponents"]
    );
    assert_eq!(AssetFolderLocation::Environments.get_path_wrt_asset_folder(), vec!["environments"]);
    assert_eq!(AssetFolderLocation::FileIO.get_path_wrt_asset_folder(), vec!["fileIO"]);
    assert_eq!(
        AssetFolderUtils::get_path_to_asset_dir_location(
            &vec!["home".to_string(), "assets".to_string()],
            AssetFolderLocation::Robot { robot_name: name }
        ),
        vec!["home", "assets", "optima_robots", "ur5"]
    );
}

#[test]
fn asset_folder_from_its_config() {
    assert_eq!(
        AssetFolderUtils::get_path_to_assets_dir(AssetsDirConfig::Missing),
        Err(OptimaError::AssetUnavailable)
    );
    assert_eq!(
        AssetFolderUtils::get_path_to_assets_dir(AssetsDirConfig::Unreadable),
        Err(OptimaError::AssetUnavailable)
    );
    assert_eq!(
        AssetFolderUtils::get_path_to_assets_dir(AssetsDirConfig::Path {
            path: "/assets".to_string(),
            exists: false
        }),
        Err(OptimaError::AssetUnavailable)
    );
    assert_eq!(
        AssetFolderUtils::get_path_to_assets_dir(AssetsDirConfig::Path {
            path: "/assets".to_string(),
            exists: true
        }),
        Ok("/assets".to_string())
    );
    assert!(AssetFolderUtils::writes_default_config(&AssetsDirConfig::Missing));
    assert!(!AssetFolderUtils::writes_default_config(&AssetsDirConfig::Unreadable));
}

#[test]
fn kinematic_description_among_files() {
    assert_eq!(
        FileUtils::get_file_extension_string(&"robot.urdf".to_string()),
        Some("urdf".to_string())
    );
    assert_eq!(FileUtils::get_file_extension_string(&"robot".to_string()), None);
    assert_eq!(
        FileUtils::get_file_extension_string(&"robots/ur5/ur5.urdf".to_string()),
        Some("urdf".to_string())
    );
    assert_eq!(FileUtils::get_file_extension_string(&"robots/ur5".to_string()), None);
    assert_eq!(
        FileUtils::get_file_extension_string(&"ur5.tar.gz".to_string()),
        Some("gz".to_string())
    );
    assert_eq!(FileUtils::get_file_extension_string(&".hidden".to_string()), None);
    assert!(FileUtils::is_urdf_extension(&Some("URDF".to_string())));
    assert!(!FileUtils::is_urdf_extension(&Some("Urdf".to_string())));
    assert!(!FileUtils::is_urdf_extension(&None));
    let files = vec!["notes.txt".to_string(), "arm.URDF".to_string(), "arm.urdf".to_string()];
    assert_eq!(RobotFolderUtils::get_path_to_urdf_file(&files), Ok("arm.URDF".to_string()));
    assert_eq!(
        RobotFolderUtils::get_path_to_urdf_file(&vec!["notes.txt".to_string()]),
        Err(OptimaError::SourceDataMissing)
    );
    assert_eq!(
        RobotFolderUtils::select_urdf_file(&vec![None, Some("urdf".to_string())]),
        Ok(1)
    );
    assert_eq!(RobotFolderUtils::select_urdf_file(&vec![]), Err(OptimaError::SourceDataMissing));
}
