use crate::utils::utils_errors::OptimaError;
use vstd::prelude::*;

verus! {

/// A place in the folder of assets.
#[derive(Clone, Debug)]
pub enum AssetFolderLocation {
    Robots,
    Robot { robot_name: String },
    RobotMeshes { robot_name: String },
    RobotPreprocessedData { robot_name: String },
    RobotConvexShapes { robot_name: String },
    RobotConvexSubcomponents { robot_name: String },
    Environments,
    FileIO,
}

impl AssetFolderLocation {
    /// The path of the place below the folder of assets, one entry for each
    /// folder on the way.
    pub open spec fn spec_path_wrt_asset_folder(&self) -> Seq<Seq<char>> {
        match self {
            AssetFolderLocation::Robots => seq!["optima_robots"@],
            AssetFolderLocation::Robot { robot_name } => seq!["optima_robots"@, robot_name@],
            AssetFolderLocation::RobotMeshes { robot_name } => seq![
                "optima_robots"@,
                robot_name@,
                "meshes"@,
            ],
            AssetFolderLocation::RobotPreprocessedData { robot_name } => seq![
                "optima_robots"@,
                robot_name@,
                "preprocessed_data"@,
            ],
            AssetFolderLocation::RobotConvexShapes { robot_name } => seq![
                "optima_robots"@,
                robot_name@,
                "preprocessed_data"@,
                "convex_shapes"@,
            ],
            AssetFolderLocation::RobotConvexSubcomponents { robot_name } => seq![
                "optima_robots"@,
                robot_name@,
                "preprocessed_data"@,
                "convex_shape_subcomponents"@,
            ],
            AssetFolderLocation::Environments => seq!["environments"@],
            AssetFolderLocation::FileIO => seq!["fileIO"@],
        }
    }

    /// The path of the place below the folder of assets, one entry for each
    /// folder on the way.
    pub fn get_path_wrt_asset_folder(&self) -> (r: Vec<String>)
        ensures
            r@.len() == self.spec_path_wrt_asset_folder().len(),
            forall|i: int|
                0 <= i < r@.len() ==> (#[trigger] r@[i])@ == self.spec_path_wrt_asset_folder()[i],
    {
        let mut out_path: Vec<String> = Vec::new();
        match self {
            AssetFolderLocation::Robots => {
                out_path.push(String::from_str("optima_robots"));
            },
            AssetFolderLocation::Robot { robot_name } => {
                out_path.push(String::from_str("optima_robots"));
                out_path.push(robot_name.clone());
            },
            AssetFolderLocation::RobotMeshes { robot_name } => {
                out_path.push(String::from_str("optima_robots"));
                out_path.push(robot_name.clone());
                out_path.push(String::from_str("meshes"));
            },
            AssetFolderLocation::RobotPreprocessedData { robot_name } => {
                out_path.push(String::from_str("optima_robots"));
                out_path.push(robot_name.clone());
                out_path.push(String::from_str("preprocessed_data"));
            },
            AssetFolderLocation::RobotConvexShapes { robot_name } => {
                out_path.push(String::from_str("optima_robots"));
                out_path.push(robot_name.clone());
                out_path.push(String::from_str("preprocessed_data"));
                out_path.push(String::from_str("convex_shapes"));
            },
            AssetFolderLocation::RobotConvexSubcomponents { robot_name } => {
                out_path.push(String::from_str("optima_robots"));
                out_path.push(robot_name.clone());
                out_path.push(String::from_str("preprocessed_data"));
                out_path.push(String::from_str("convex_shape_subcomponents"));
            },
            AssetFolderLocation::Environments => {
                out_path.push(String::from_str("environments"));
            },
            AssetFolderLocation::FileIO => {
                out_path.push(String::from_str("fileIO"));
            },
        }
        out_path
    }
}

/// What was found of the file that names the folder of assets.
pub enum AssetsDirConfig {
    /// There is no such file.
    Missing,
    /// The file is there, and does not hold a path.
    Unreadable,
    /// The file holds `path`; a folder is there or is not.
    Path { path: String, exists: bool },
}

/// Paths into the folder of assets.
pub struct AssetFolderUtils;

impl AssetFolderUtils {
    /// The folder of assets, if the file that names it holds the path of a folder
    /// that is there.
    pub fn get_path_to_assets_dir(config: AssetsDirConfig) -> (r: Result<String, OptimaError>)
        ensures
            match config {
                AssetsDirConfig::Path { path, exists } => if exists {
                    r == Ok::<String, OptimaError>(path)
                } else {
                    r == Err::<String, OptimaError>(OptimaError::AssetUnavailable)
                },
                _ => r == Err::<String, OptimaError>(OptimaError::AssetUnavailable),
            },
    {
        match config {
            AssetsDirConfig::Path { path, exists } => {
                if exists {
                    Ok(path)
                } else {
                    Err(OptimaError::AssetUnavailable)
                }
            },
            _ => Err(OptimaError::AssetUnavailable),
        }
    }

    /// Whether a file that names the folder of assets is to be written: when there
    /// is none yet.
    pub fn writes_default_config(config: &AssetsDirConfig) -> (r: bool)
        ensures
            r == (*config is Missing),
    {
        match config {
            AssetsDirConfig::Missing => true,
            _ => false,
        }
    }

    /// The path of a place in the folder of assets: the path of the folder, entry
    /// for entry, and then the path of the place below it.
    pub fn get_path_to_asset_dir_location(assets_dir: &Vec<String>, l: AssetFolderLocation) -> (r:
        Vec<String>)
        ensures
            r@.len() == assets_dir@.len() + l.spec_path_wrt_asset_folder().len(),
            forall|i: int| 0 <= i < assets_dir@.len() ==> (#[trigger] r@[i])@ == assets_dir@[i]@,
            forall|i: int|
                0 <= i < l.spec_path_wrt_asset_folder().len() ==> (#[trigger] r@[assets_dir@.len()
                    + i])@ == l.spec_path_wrt_asset_folder()[i],
    {
        let mut p: Vec<String> = Vec::new();
        let mut i: usize = 0;
        while i < assets_dir.len()
            invariant
                i <= assets_dir@.len(),
                p@.len() == i,
                forall|a: int| 0 <= a < i ==> (#[trigger] p@[a])@ == assets_dir@[a]@,
            decreases assets_dir@.len() - i,
        {
            p.push(assets_dir[i].clone());
            i += 1;
        }
        let a = l.get_path_wrt_asset_folder();
        let mut j: usize = 0;
        while j < a.len()
            invariant
                j <= a@.len(),
                a@.len() == l.spec_path_wrt_asset_folder().len(),
                forall|x: int|
                    0 <= x < a@.len() ==> (#[trigger] a@[x])@ == l.spec_path_wrt_asset_folder()[x],
                p@.len() == assets_dir@.len() + j,
                forall|x: int| 0 <= x < assets_dir@.len() ==> (#[trigger] p@[x])@ == assets_dir@[x]@,
                forall|x: int|
                    0 <= x < j ==> (#[trigger] p@[assets_dir@.len() + x])@
                        == l.spec_path_wrt_asset_folder()[x],
            decreases a@.len() - j,
        {
            p.push(a[j].clone());
            j += 1;
        }
        p
    }
}

/// File names.
pub struct FileUtils;

impl FileUtils {
    /// The extension of the file that the path names, as `std::path::Path::extension`
    /// finds it. How a path falls into its parts differs between platforms, so the
    /// contract claims only what the documentation of that function says on every
    /// platform: without a dot in the file name there is no extension, and the
    /// extension is what follows the last dot, so that it holds none.
    #[verifier::external_body]
    pub fn get_file_extension_string(p: &String) -> (r: Option<String>)
        ensures
            !p@.contains('.') ==> r is None,
            r matches Some(extension) ==> !extension@.contains('.'),
    {
        match std::path::Path::new(p).extension() {
            None => None,
            Some(o) => match o.to_str() {
                None => None,
                Some(s) => Some(s.to_string()),
            },
        }
    }

    /// Whether the extension is that of a kinematic description.
    pub fn is_urdf_extension(extension: &Option<String>) -> (r: bool)
        ensures
            r == (*extension matches Some(e) && (e@ == "urdf"@ || e@ == "URDF"@)),
    {
        match extension {
            None => false,
            Some(e) => {
                let lower = String::from_str("urdf");
                let upper = String::from_str("URDF");
                *e == lower || *e == upper
            },
        }
    }
}

/// Files in the folder of a robot.
pub struct RobotFolderUtils;

impl RobotFolderUtils {
    /// `k` is the first file with the extension of a kinematic description.
    pub open spec fn is_first_urdf(extensions: Seq<Option<String>>, k: int) -> bool {
        &&& 0 <= k < extensions.len()
        &&& extensions[k] matches Some(e) && (e@ == "urdf"@ || e@ == "URDF"@)
        &&& forall|i: int|
            0 <= i < k ==> !((#[trigger] extensions[i]) matches Some(e) && (e@ == "urdf"@ || e@
                == "URDF"@))
    }

    /// The position of the first file with the extension of a kinematic
    /// description, given the extension of every file.
    pub fn select_urdf_file(extensions: &Vec<Option<String>>) -> (r: Result<usize, OptimaError>)
        ensures
            match r {
                Ok(k) => Self::is_first_urdf(extensions@, k as int),
                Err(e) => e == OptimaError::SourceDataMissing && forall|i: int|
                    0 <= i < extensions@.len() ==> !((#[trigger] extensions@[i]) matches Some(x)
                        && (x@ == "urdf"@ || x@ == "URDF"@)),
            },
    {
        let mut k: usize = 0;
        while k < extensions.len()
            invariant
                k <= extensions@.len(),
                forall|i: int|
                    0 <= i < k ==> !((#[trigger] extensions@[i]) matches Some(x) && (x@ == "urdf"@
                        || x@ == "URDF"@)),
            decreases extensions@.len() - k,
        {
            if FileUtils::is_urdf_extension(&extensions[k]) {
                return Ok(k);
            }
            k += 1;
        }
        Err(OptimaError::SourceDataMissing)
    }

    /// The kinematic description among the files of the folder of a robot: the
    /// first file whose extension is `urdf` or `URDF`. The file that is returned
    /// is one of the files, and its name holds a dot; where no name holds a dot,
    /// there is no description.
    pub fn get_path_to_urdf_file(all_files: &Vec<String>) -> (r: Result<String, OptimaError>)
        ensures
            match r {
                Ok(f) => exists|k: int|
                    0 <= k < all_files@.len() && f == #[trigger] all_files@[k] && all_files@[k]@.contains(
                        '.',
                    ),
                Err(e) => e == OptimaError::SourceDataMissing,
            },
            (forall|k: int| 0 <= k < all_files@.len() ==> !(#[trigger] all_files@[k])@.contains('.'))
                ==> r is Err,
    {
        let mut extensions: Vec<Option<String>> = Vec::new();
        let mut i: usize = 0;
        while i < all_files.len()
            invariant
                i <= all_files@.len(),
                extensions@.len() == i,
                forall|k: int|
                    0 <= k < i && (#[trigger] extensions@[k]) is Some ==> all_files@[k]@.contains(
                        '.',
                    ),
            decreases all_files@.len() - i,
        {
            extensions.push(FileUtils::get_file_extension_string(&all_files[i]));
            i += 1;
        }
        match Self::select_urdf_file(&extensions) {
            Ok(k) => {
                assert(extensions@[k as int] is Some);
                Ok(all_files[k].clone())
            },
            Err(e) => Err(e),
        }
    }
}

} // verus!
