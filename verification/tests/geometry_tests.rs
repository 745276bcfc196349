use optima::robot_modules::robot_geometric_shape_module::{
    PreprocessingAction, RobotGeometricShapeModule, RobotLinkShapeRepresentation,
    RobotShapeCollection, RobotShapeCollectionPreprocessing, RobotShapeCollectionQuery,
    SampledPair, MAX_SAMPLES, MIN_SAMPLES, MIN_SAMPLES_FOR_NEVER_COLLIDING,
};
use optima::robot_modules::robot_kinematics_module::RobotFKResult;
use optima::robot_modules::robot_model_module::RobotModelModule;
use optima::robot_modules::robot_state_module::{RobotStateModule, RobotStateType};
use optima::utils::utils_errors::OptimaError;
use optima::utils::utils_generic_data_structures::SquareArray2D;
use optima::utils::utils_robot::joint::{JointType, URDFJoint};
use optima::utils::utils_robot::link::URDFLink;
use optima::utils::utils_se3::optima_rotation::{UnitQuaternion, Vector3};
use optima::utils::utils_se3::optima_se3_pose::OptimaSE3Pose;
use optima::utils::utils_shape_geometry::geometric_shape::{
    GeometricShape, GeometricShapeSignature, LogCondition, StopCondition,
};
use optima::utils::utils_shape_geometry::shape_collection::{
    ShapeCollection, ShapeCollectionInputPoses, ShapeCollectionQuery, ShapeCollectionTables,
};

fn signature(link_idx: usize, shape_idx_in_link: usize) -> GeometricShapeSignature {
    GeometricShapeSignature::RobotLink { link_idx, shape_idx_in_link }
}

/// Shapes named by their signatures; the geometry is a label.
fn collection_of(signatures: &[GeometricShapeSignature]) -> ShapeCollection<f64, &'static str> {
    let mut collection = ShapeCollection::new_empty();
    for s in signatures {
        collection.add_geometric_shape(GeometricShape::new("shape", *s));
    }
    collection
}

/// Three links: link 0 with two shapes, link 1 with one, link 2 with one.
fn robot_collection() -> RobotShapeCollection<f64, &'static str> {
    let shapes = collection_of(&[signature(0, 0), signature(0, 1), signature(1, 0), signature(2, 0)]);
    RobotShapeCollection::new(3, RobotLinkShapeRepresentation::Cubes, shapes).unwrap()
}

fn pose_at(x: f64) -> OptimaSE3Pose<f64> {
    OptimaSE3Pose::new_unit_quaternion_and_translation(
        UnitQuaternion { i: 0.0, j: 0.0, k: 0.0, w: 1.0 },
        Vector3 { x, y: 0.0, z: 0.0 },
    )
}

fn translation_x(pose: &Option<OptimaSE3Pose<f64>>) -> Option<f64> {
    pose.as_ref().map(|p| p.unwrap_rotation_and_translation().unwrap().translation().x)
}

fn colliding(a: GeometricShapeSignature, b: GeometricShapeSignature) -> SampledPair {
    SampledPair { signature1: a, signature2: b, in_collision: true }
}

fn apart(a: GeometricShapeSignature, b: GeometricShapeSignature) -> SampledPair {
    SampledPair { signature1: a, signature2: b, in_collision: false }
}

#[test]
fn shapes_are_listed_for_their_links() {
    let collection = robot_collection();
    assert_eq!(
        collection.robot_link_shape_representation(),
        &RobotLinkShapeRepresentation::Cubes
    );
    assert_eq!(collection.link_idx_to_shape_idxs_mapping(), &vec![vec![0, 1], vec![2], vec![3]]);
    assert_eq!(collection.get_shape_idxs_from_link_idx(0).unwrap(), &vec![0, 1]);
    assert_eq!(
        collection.get_shape_idxs_from_link_idx(3).err(),
        Some(OptimaError::IndexOutOfBounds { index: 3, length: 3 })
    );
    assert_eq!(collection.shape_collection().num_shapes(), 4);
    assert_eq!(collection.shape_collection().shapes()[2].signature(), signature(1, 0));
    assert_eq!(collection.shape_collection().shapes()[2].geometry(), &"shape");
    let stray = collection_of(&[signature(0, 0), signature(5, 0)]);
    assert_eq!(
        RobotShapeCollection::new(3, RobotLinkShapeRepresentation::Cubes, stray).err(),
        Some(OptimaError::IndexOutOfBounds { index: 5, length: 3 })
    );
}

#[test]
fn shapes_are_found_by_signature() {
    let collection = collection_of(&[signature(0, 0), signature(1, 0), signature(0, 0)]);
    assert_eq!(collection.get_shape_idx_from_signature(&signature(0, 0)), Ok(0));
    assert_eq!(collection.get_shape_idx_from_signature(&signature(1, 0)), Ok(1));
    assert_eq!(
        collection.get_shape_idx_from_signature(&signature(1, 1)),
        Err(OptimaError::UnknownShapeSignature)
    );
    assert_eq!(
        collection.get_shape_idx_from_signature(&GeometricShapeSignature::Anonymous),
        Err(OptimaError::UnknownShapeSignature)
    );
}

#[test]
fn shapes_get_the_poses_of_their_links() {
    let collection = robot_collection();
    let mut fk = RobotFKResult::new_empty(3);
    fk.set_pose(0, pose_at(10.0)).unwrap();
    fk.set_pose(2, pose_at(30.0)).unwrap();
    assert_eq!(
        fk.set_pose(3, pose_at(0.0)),
        Err(OptimaError::IndexOutOfBounds { index: 3, length: 3 })
    );
    assert_eq!(fk.link_entries()[2].link_idx(), 2);
    let poses = collection.recover_poses(&fk).unwrap();
    let xs: Vec<Option<f64>> = poses.poses().iter().map(translation_x).collect();
    assert_eq!(xs, vec![Some(10.0), Some(10.0), None, Some(30.0)]);
    // A pose for a link that the robot does not have is an error.
    let mut longer = RobotFKResult::new_empty(5);
    longer.set_pose(4, pose_at(1.0)).unwrap();
    assert_eq!(
        collection.recover_poses(&longer).err(),
        Some(OptimaError::IndexOutOfBounds { index: 4, length: 3 })
    );
    // Links without a pose may be more than the robot has.
    let empty = RobotFKResult::new_empty(5);
    assert!(collection.recover_poses(&empty).is_ok());
}

#[test]
fn queried_pairs_leave_out_skipped_and_unplaced_shapes() {
    let mut shapes = collection_of(&[signature(0, 0), signature(1, 0), signature(2, 0)]);
    let mut poses = ShapeCollectionInputPoses::new(3);
    assert_eq!(shapes.pairs_to_query(&poses), vec![]);
    poses.insert_or_replace_pose_by_idx(0, pose_at(0.0)).unwrap();
    poses.insert_or_replace_pose_by_idx(1, pose_at(1.0)).unwrap();
    poses.insert_or_replace_pose_by_idx(2, pose_at(2.0)).unwrap();
    assert_eq!(
        poses.insert_or_replace_pose_by_idx(3, pose_at(3.0)),
        Err(OptimaError::IndexOutOfBounds { index: 3, length: 3 })
    );
    assert_eq!(shapes.pairs_to_query(&poses), vec![(0, 1), (0, 2), (1, 2)]);
    shapes.replace_skip_from_idxs(true, 2, 0).unwrap();
    assert_eq!(shapes.skip_from_idxs(0, 2), Ok(true));
    assert_eq!(shapes.pairs_to_query(&poses), vec![(0, 1), (1, 2)]);
    let mut fewer = ShapeCollectionInputPoses::new(3);
    fewer.insert_or_replace_pose_by_idx(1, pose_at(1.0)).unwrap();
    fewer.insert_or_replace_pose_by_idx(2, pose_at(2.0)).unwrap();
    assert_eq!(shapes.pairs_to_query(&fewer), vec![(1, 2)]);
}

#[test]
fn tables_are_symmetric_with_skipped_diagonal() {
    let mut collection = robot_collection();
    let mut preprocessing = RobotShapeCollectionPreprocessing::new(4);
    for _ in 0..100 {
        preprocessing
            .absorb_sample(
                collection.shape_collection(),
                &vec![
                    colliding(signature(0, 0), signature(1, 0)),
                    apart(signature(1, 0), signature(2, 0)),
                ],
            )
            .unwrap();
    }
    let mut averages = SquareArray2D::new(4, false, 0.0);
    for a in 0..4 {
        for b in 0..4 {
            averages.replace_data((10 * a + b) as f64, a, b).unwrap();
        }
    }
    assert_eq!(preprocessing.finish(&mut collection, &averages), Ok(()));
    let shapes = collection.shape_collection();
    for a in 0..4 {
        assert_eq!(shapes.skip_from_idxs(a, a), Ok(true));
        for b in 0..4 {
            assert_eq!(shapes.skip_from_idxs(a, b), shapes.skip_from_idxs(b, a));
            assert_eq!(
                shapes.average_distance_from_idxs(a, b),
                shapes.average_distance_from_idxs(b, a)
            );
            // Of the two averages of a pair, the one in the row of the later shape.
            let (lo, hi) = if a <= b { (a, b) } else { (b, a) };
            assert_eq!(shapes.average_distance_from_idxs(a, b), Ok(Some((10 * hi + lo) as f64)));
        }
    }
    // Shapes 0 and 2 collided in every one of 100 samples; shapes 2 and 3 in none,
    // which is too few samples to say never.
    assert_eq!(shapes.skip_from_idxs(0, 2), Ok(true));
    assert_eq!(shapes.skip_from_idxs(2, 3), Ok(false));
    assert_eq!(shapes.skip_from_idxs(1, 3), Ok(false));
}

#[test]
fn shapes_of_one_link_are_always_skipped() {
    let mut collection = robot_collection();
    let mut preprocessing = RobotShapeCollectionPreprocessing::new(4);
    // One sample in which the two shapes of link 0 are far apart.
    preprocessing
        .absorb_sample(
            collection.shape_collection(),
            &vec![apart(signature(0, 0), signature(0, 1))],
        )
        .unwrap();
    let averages = SquareArray2D::new(4, true, 100.0);
    preprocessing.finish(&mut collection, &averages).unwrap();
    assert_eq!(collection.shape_collection().skip_from_idxs(0, 1), Ok(true));
    assert_eq!(collection.shape_collection().skip_from_idxs(1, 0), Ok(true));
    assert_eq!(collection.shape_collection().skip_from_idxs(0, 2), Ok(false));
}

#[test]
fn always_overlapping_pair_is_skipped_after_a_thousand_samples() {
    let mut collection = robot_collection();
    let mut preprocessing = RobotShapeCollectionPreprocessing::new(4);
    let sample =
        vec![colliding(signature(1, 0), signature(2, 0)), apart(signature(0, 0), signature(2, 0))];
    for _ in 0..1000 {
        assert_eq!(preprocessing.next_action(false), PreprocessingAction::DrawSample);
        preprocessing.absorb_sample(collection.shape_collection(), &sample).unwrap();
    }
    assert_eq!(preprocessing.count(), 1000);
    assert_eq!(preprocessing.collisions(2, 3), Ok(1000));
    assert_eq!(preprocessing.collisions(3, 2), Ok(1000));
    assert_eq!(preprocessing.collisions(0, 3), Ok(0));
    let averages = SquareArray2D::new(4, true, -0.5);
    preprocessing.finish(&mut collection, &averages).unwrap();
    let shapes = collection.shape_collection();
    // Always colliding.
    assert_eq!(shapes.skip_from_idxs(2, 3), Ok(true));
    // Never colliding in a thousand samples.
    assert_eq!(shapes.skip_from_idxs(0, 3), Ok(true));
    assert_eq!(shapes.skip_from_idxs(0, 2), Ok(true));
}

#[test]
fn thresholds_of_preprocessing() {
    assert_eq!(MAX_SAMPLES, 100_000);
    assert_eq!(MIN_SAMPLES, 70);
    assert_eq!(MIN_SAMPLES_FOR_NEVER_COLLIDING, 1000);
    // 99 collisions in 100 samples are not more than 99 in 100; 100 in 100 are.
    for (collisions, expected) in [(99usize, false), (100usize, true)] {
        let mut collection = robot_collection();
        let mut preprocessing = RobotShapeCollectionPreprocessing::new(4);
        for k in 0..100 {
            let pair = if k < collisions {
                colliding(signature(1, 0), signature(2, 0))
            } else {
                apart(signature(1, 0), signature(2, 0))
            };
            preprocessing.absorb_sample(collection.shape_collection(), &vec![pair]).unwrap();
        }
        preprocessing.finish(&mut collection, &SquareArray2D::new(4, true, 0.0)).unwrap();
        assert_eq!(collection.shape_collection().skip_from_idxs(2, 3), Ok(expected));
    }
    // 69 of 69 samples are too few samples.
    let mut collection = robot_collection();
    let mut preprocessing = RobotShapeCollectionPreprocessing::new(4);
    for _ in 0..69 {
        preprocessing
            .absorb_sample(
                collection.shape_collection(),
                &vec![colliding(signature(1, 0), signature(2, 0))],
            )
            .unwrap();
    }
    preprocessing.finish(&mut collection, &SquareArray2D::new(4, true, 0.0)).unwrap();
    assert_eq!(collection.shape_collection().skip_from_idxs(2, 3), Ok(false));
    // 999 samples without a collision are too few to say never.
    let mut collection = robot_collection();
    let mut preprocessing = RobotShapeCollectionPreprocessing::new(4);
    for _ in 0..999 {
        preprocessing.absorb_sample(collection.shape_collection(), &vec![]).unwrap();
    }
    preprocessing.finish(&mut collection, &SquareArray2D::new(4, true, 0.0)).unwrap();
    assert_eq!(collection.shape_collection().skip_from_idxs(2, 3), Ok(false));
}

#[test]
fn sampling_ends_on_time_or_on_count() {
    let collection = robot_collection();
    let mut preprocessing = RobotShapeCollectionPreprocessing::new(4);
    assert_eq!(preprocessing.next_action(true), PreprocessingAction::DrawSample);
    for _ in 0..70 {
        preprocessing.absorb_sample(collection.shape_collection(), &vec![]).unwrap();
    }
    assert_eq!(preprocessing.next_action(true), PreprocessingAction::DrawSample);
    assert_eq!(preprocessing.next_action(false), PreprocessingAction::DrawSample);
    preprocessing.absorb_sample(collection.shape_collection(), &vec![]).unwrap();
    assert_eq!(preprocessing.count(), 71);
    assert_eq!(preprocessing.next_action(true), PreprocessingAction::Finish);
    assert_eq!(preprocessing.next_action(false), PreprocessingAction::DrawSample);
    for _ in 71..MAX_SAMPLES {
        preprocessing.absorb_sample(collection.shape_collection(), &vec![]).unwrap();
    }
    assert_eq!(preprocessing.count(), MAX_SAMPLES);
    assert_eq!(preprocessing.next_action(false), PreprocessingAction::Finish);
    // No sample is taken in beyond the most.
    assert_eq!(
        preprocessing.absorb_sample(collection.shape_collection(), &vec![]),
        Err(OptimaError::IndexOutOfBounds { index: MAX_SAMPLES, length: MAX_SAMPLES })
    );
    assert_eq!(preprocessing.count(), MAX_SAMPLES);
}

#[test]
fn samples_with_unknown_shapes_are_not_counted() {
    let collection = robot_collection();
    let mut preprocessing = RobotShapeCollectionPreprocessing::new(4);
    let r = preprocessing.absorb_sample(
        collection.shape_collection(),
        &vec![
            colliding(signature(0, 0), signature(1, 0)),
            colliding(signature(0, 0), signature(7, 0)),
        ],
    );
    assert_eq!(r, Err(OptimaError::UnknownShapeSignature));
    assert_eq!(preprocessing.count(), 0);
    assert_eq!(preprocessing.collisions(0, 2), Ok(0));
    assert_eq!(
        preprocessing.collisions(0, 4),
        Err(OptimaError::IndexOutOfBounds { index: 4, length: 4 })
    );
    // Counts for three shapes do not take a sample of a collection of four.
    let mut smaller = RobotShapeCollectionPreprocessing::new(3);
    assert_eq!(
        smaller.absorb_sample(collection.shape_collection(), &vec![]),
        Err(OptimaError::IndexOutOfBounds { index: 4, length: 3 })
    );
    assert_eq!(smaller.count(), 0);
}

#[test]
fn a_pair_is_counted_no_more_often_than_samples_were_drawn() {
    let collection = robot_collection();
    let mut preprocessing = RobotShapeCollectionPreprocessing::new(4);
    let twice = vec![
        colliding(signature(1, 0), signature(2, 0)),
        colliding(signature(2, 0), signature(1, 0)),
    ];
    preprocessing.absorb_sample(collection.shape_collection(), &twice).unwrap();
    assert_eq!(preprocessing.collisions(2, 3), Ok(1));
    preprocessing.absorb_sample(collection.shape_collection(), &vec![]).unwrap();
    preprocessing.absorb_sample(collection.shape_collection(), &twice).unwrap();
    assert_eq!(preprocessing.collisions(2, 3), Ok(3));
    assert_eq!(preprocessing.count(), 3);
}

#[test]
fn finish_rejects_tables_of_another_size() {
    let mut collection = robot_collection();
    let preprocessing = RobotShapeCollectionPreprocessing::new(3);
    assert_eq!(
        preprocessing.finish(&mut collection, &SquareArray2D::new(4, true, 0.0)),
        Err(OptimaError::IndexOutOfBounds { index: 3, length: 4 })
    );
    let preprocessing = RobotShapeCollectionPreprocessing::new(4);
    assert_eq!(
        preprocessing.finish(&mut collection, &SquareArray2D::new(5, true, 0.0)),
        Err(OptimaError::IndexOutOfBounds { index: 5, length: 4 })
    );
    // Nothing was written: only the shapes with themselves are skipped, as ever.
    assert_eq!(collection.shape_collection().skip_from_idxs(0, 0), Ok(true));
    assert_eq!(collection.shape_collection().skip_from_idxs(0, 1), Ok(false));
    assert_eq!(collection.shape_collection().average_distance_from_idxs(0, 0), Ok(None));
}

#[test]
fn a_shape_is_always_skipped_with_itself() {
    let mut shapes = collection_of(&[signature(0, 0), signature(1, 0)]);
    assert_eq!(shapes.skip_from_idxs(0, 0), Ok(true));
    assert_eq!(shapes.skip_from_idxs(1, 1), Ok(true));
    assert_eq!(shapes.skip_from_idxs(0, 1), Ok(false));
    assert_eq!(shapes.replace_skip_from_idxs(false, 1, 1), Ok(()));
    assert_eq!(shapes.skip_from_idxs(1, 1), Ok(true));
    shapes.add_geometric_shape(GeometricShape::new("shape", signature(2, 0)));
    assert_eq!(shapes.skip_from_idxs(2, 2), Ok(true));
    assert_eq!(shapes.skip_from_idxs(2, 0), Ok(false));
    let mut tables: ShapeCollectionTables<f64> = ShapeCollectionTables::new(3);
    assert_eq!(tables.skip(1, 1), Ok(true));
    assert_eq!(tables.skip(1, 2), Ok(false));
    assert_eq!(tables.replace_skip(false, 2, 2), Ok(()));
    assert_eq!(tables.skip(2, 2), Ok(true));
    assert_eq!(tables.replace_skip(true, 0, 2), Ok(()));
    assert_eq!(tables.skip(2, 0), Ok(true));
    assert_eq!(tables.average_distance(0, 2), Ok(None));
    assert_eq!(tables.replace_average_distance(Some(0.25), 2, 0), Ok(()));
    assert_eq!(tables.average_distance(0, 2), Ok(Some(0.25)));
    assert_eq!(tables.replace_average_distance(None, 0, 2), Ok(()));
    assert_eq!(tables.average_distance(2, 0), Ok(None));
    assert_eq!(tables.skip(3, 0), Err(OptimaError::IndexOutOfBounds { index: 3, length: 3 }));
    assert_eq!(
        tables.replace_skip(true, 0, 3),
        Err(OptimaError::IndexOutOfBounds { index: 3, length: 3 })
    );
    assert_eq!(
        tables.replace_average_distance(None, 4, 3),
        Err(OptimaError::IndexOutOfBounds { index: 4, length: 3 })
    );
    assert_eq!(
        tables.average_distance(0, 3),
        Err(OptimaError::IndexOutOfBounds { index: 3, length: 3 })
    );
}

#[test]
fn a_stored_collection_keeps_its_permanent_tables() {
    // The permanent tables skip shapes 2 and 3; the collection was calibrated since
    // and skips shapes 0 and 2 as well.
    let mut permanent: ShapeCollectionTables<f64> = ShapeCollectionTables::new(4);
    permanent.replace_skip(true, 2, 3).unwrap();
    permanent.replace_average_distance(Some(1.5), 2, 3).unwrap();
    let mut shapes =
        collection_of(&[signature(0, 0), signature(0, 1), signature(1, 0), signature(2, 0)]);
    shapes.restore_tables(&permanent).unwrap();
    shapes.replace_skip_from_idxs(true, 0, 2).unwrap();
    let collection =
        RobotShapeCollection::new(3, RobotLinkShapeRepresentation::Cubes, shapes).unwrap();
    let mut module: RobotGeometricShapeModule<f64, &'static str> = RobotGeometricShapeModule::new();
    let wrong: ShapeCollectionTables<f64> = ShapeCollectionTables::new(3);
    assert_eq!(
        module.add_robot_shape_collection_with_permanent_tables(robot_collection(), wrong),
        Err(OptimaError::IndexOutOfBounds { index: 3, length: 4 })
    );
    assert!(module.robot_shape_collections().is_empty());
    assert_eq!(
        module.add_robot_shape_collection_with_permanent_tables(collection, permanent),
        Ok(())
    );
    assert_eq!(module.permanent_tables().len(), 1);
    assert_eq!(module.permanent_tables()[0].skip(0, 2), Ok(false));
    let cubes = RobotLinkShapeRepresentation::Cubes;
    let shapes = module.robot_shape_collection(&cubes).unwrap().shape_collection();
    assert_eq!(shapes.skip_from_idxs(0, 2), Ok(true));
    assert_eq!(shapes.skip_from_idxs(2, 3), Ok(true));
    module.reset_robot_geometric_shape_collection(cubes).unwrap();
    let shapes = module.robot_shape_collection(&cubes).unwrap().shape_collection();
    assert_eq!(shapes.skip_from_idxs(0, 2), Ok(false));
    assert_eq!(shapes.skip_from_idxs(2, 3), Ok(true));
    assert_eq!(shapes.average_distance_from_idxs(3, 2), Ok(Some(1.5)));
}

#[test]
fn durations_and_representations() {
    assert_eq!(
        RobotGeometricShapeModule::<f64, ()>::get_all_robot_link_shape_representations(),
        vec![
            RobotLinkShapeRepresentation::Cubes,
            RobotLinkShapeRepresentation::ConvexShapes,
            RobotLinkShapeRepresentation::SphereSubcomponents,
            RobotLinkShapeRepresentation::CubeSubcomponents,
            RobotLinkShapeRepresentation::ConvexShapeSubcomponents,
            RobotLinkShapeRepresentation::TriangleMeshes,
        ]
    );
    let seconds: Vec<u64> =
        RobotGeometricShapeModule::<f64, ()>::get_all_robot_link_shape_representations()
            .iter()
            .map(RobotGeometricShapeModule::<f64, ()>::stop_at_min_sample_duration)
            .collect();
    assert_eq!(seconds, vec![20, 30, 30, 30, 60, 120]);
}

fn two_link_states() -> (RobotStateModule<f64>, RobotModelModule<f64>) {
    let links = vec![URDFLink::new("base".to_string()), URDFLink::new("arm".to_string())];
    let joints = vec![URDFJoint::new(
        "shoulder".to_string(),
        JointType::Revolute,
        "base".to_string(),
        "arm".to_string(),
        None,
    )];
    let model = RobotModelModule::new("two".to_string(), &links, &joints).unwrap();
    (RobotStateModule::new(&model), model)
}

#[test]
fn distance_query_over_no_shapes_is_empty() {
    let (states, _) = two_link_states();
    let state = states.spawn_robot_state(vec![0.0], RobotStateType::Full).unwrap();
    let mut module: RobotGeometricShapeModule<f64, ()> = RobotGeometricShapeModule::new();
    let empty = RobotShapeCollection::new(
        2,
        RobotLinkShapeRepresentation::Cubes,
        ShapeCollection::new_empty(),
    )
    .unwrap();
    module.add_robot_shape_collection(empty);
    let input = RobotShapeCollectionQuery::Distance { robot_joint_state: &state };
    let mut fk = RobotFKResult::new_empty(2);
    fk.set_pose(0, pose_at(0.0)).unwrap();
    fk.set_pose(1, pose_at(1.0)).unwrap();
    let query = module
        .shape_collection_query(&input, &vec![fk], RobotLinkShapeRepresentation::Cubes)
        .unwrap();
    match query {
        ShapeCollectionQuery::Distance { poses } => {
            assert!(poses.poses().is_empty());
            let collection = module.robot_shape_collection(&RobotLinkShapeRepresentation::Cubes);
            let shapes = collection.unwrap().shape_collection();
            assert!(shapes.pairs_to_query(&poses).is_empty());
            let (outputs, stopped) = shapes.query_over_pairs(
                &poses,
                StopCondition::Never,
                LogCondition::LogAll,
                |_pair| (1.0, false),
            );
            assert!(outputs.is_empty());
            assert!(!stopped);
        }
        _ => panic!("the query is a distance query"),
    }
}

#[test]
fn queries_stop_and_keep_as_asked() {
    let mut shapes = collection_of(&[signature(0, 0), signature(1, 0), signature(2, 0)]);
    shapes.replace_skip_from_idxs(true, 0, 1).unwrap();
    let mut poses = ShapeCollectionInputPoses::new(3);
    for i in 0..3 {
        poses.insert_or_replace_pose_by_idx(i, pose_at(i as f64)).unwrap();
    }
    // The distance of two shapes is the difference of their places; shapes less
    // than two apart intersect.
    let distance = |(a, b): (usize, usize)| {
        let d = (b - a) as f64;
        (d, d < 2.0)
    };
    let (all, stopped) =
        shapes.query_over_pairs(&poses, StopCondition::Never, LogCondition::LogAll, distance);
    assert_eq!(all, vec![((0, 2), 2.0), ((1, 2), 1.0)]);
    assert!(!stopped);
    let (hits, stopped) =
        shapes.query_over_pairs(&poses, StopCondition::Never, LogCondition::Intersection, distance);
    assert_eq!(hits, vec![((1, 2), 1.0)]);
    assert!(!stopped);
    shapes.replace_skip_from_idxs(false, 0, 1).unwrap();
    let (first, stopped) = shapes.query_over_pairs(
        &poses,
        StopCondition::Intersection,
        LogCondition::LogAll,
        distance,
    );
    assert_eq!(first, vec![((0, 1), 1.0)]);
    assert!(stopped);
    let mut fewer = ShapeCollectionInputPoses::new(3);
    fewer.insert_or_replace_pose_by_idx(2, pose_at(2.0)).unwrap();
    assert_eq!(shapes.shapes_to_query(&fewer), vec![2]);
    let (single, stopped) = shapes.query_over_shapes(
        &fewer,
        StopCondition::Intersection,
        LogCondition::LogAll,
        |i| (i, false),
    );
    assert_eq!(single, vec![(2, 2)]);
    assert!(!stopped);
}

#[test]
fn query_without_preprocessed_collection_fails() {
    let (states, _) = two_link_states();
    let state = states.spawn_robot_state(vec![0.0], RobotStateType::Full).unwrap();
    let mut module: RobotGeometricShapeModule<f64, &'static str> = RobotGeometricShapeModule::new();
    module.add_robot_shape_collection(robot_collection());
    let input = RobotShapeCollectionQuery::Distance { robot_joint_state: &state };
    let r = module.shape_collection_query(
        &input,
        &vec![RobotFKResult::new_empty(3)],
        RobotLinkShapeRepresentation::TriangleMeshes,
    );
    assert_eq!(r.err(), Some(OptimaError::SchemeNotPreprocessed));
    assert_eq!(
        module.robot_shape_collection(&RobotLinkShapeRepresentation::ConvexShapes).err(),
        Some(OptimaError::SchemeNotPreprocessed)
    );
    assert!(module.robot_shape_collection(&RobotLinkShapeRepresentation::Cubes).is_ok());
}

#[test]
fn query_keeps_its_kind_and_takes_poses_for_each_state() {
    let (states, _) = two_link_states();
    let start = states.spawn_robot_state(vec![0.0], RobotStateType::Full).unwrap();
    let end = states.spawn_robot_state(vec![1.0], RobotStateType::Full).unwrap();
    let mut module: RobotGeometricShapeModule<f64, &'static str> = RobotGeometricShapeModule::new();
    module.add_robot_shape_collection(robot_collection());
    let point = Vector3 { x: 1.0, y: 2.0, z: 3.0 };
    let input = RobotShapeCollectionQuery::ProjectPoint {
        robot_joint_state: &start,
        point: &point,
        solid: true,
    };
    assert_eq!(input.get_robot_joint_state().unwrap().len(), 1);
    let mut fk = RobotFKResult::new_empty(3);
    fk.set_pose(1, pose_at(5.0)).unwrap();
    let query = module
        .shape_collection_query(&input, &vec![fk], RobotLinkShapeRepresentation::Cubes)
        .unwrap();
    match query {
        ShapeCollectionQuery::ProjectPoint { poses, point, solid } => {
            let xs: Vec<Option<f64>> = poses.poses().iter().map(translation_x).collect();
            assert_eq!(xs, vec![None, None, Some(5.0), None]);
            assert_eq!(point.z, 3.0);
            assert!(solid);
        }
        _ => panic!("the query is a projection"),
    }
    let ccd =
        RobotShapeCollectionQuery::CCD { robot_joint_state_t1: &start, robot_joint_state_t2: &end };
    let joint_states = ccd.get_robot_joint_state().unwrap();
    assert_eq!(joint_states.len(), 2);
    assert_eq!(joint_states[1].state(), &vec![1.0]);
    let mut fk1 = RobotFKResult::new_empty(3);
    fk1.set_pose(0, pose_at(1.0)).unwrap();
    let mut fk2 = RobotFKResult::new_empty(3);
    fk2.set_pose(0, pose_at(2.0)).unwrap();
    let r = module.shape_collection_query(
        &ccd,
        &vec![RobotFKResult::new_empty(3)],
        RobotLinkShapeRepresentation::Cubes,
    );
    assert_eq!(r.err(), Some(OptimaError::StateSizeMismatch { given: 1, expected: 2 }));
    let query = module
        .shape_collection_query(&ccd, &vec![fk1, fk2], RobotLinkShapeRepresentation::Cubes)
        .unwrap();
    match query {
        ShapeCollectionQuery::CCD { poses_t1, poses_t2 } => {
            assert_eq!(translation_x(&poses_t1.poses()[1]), Some(1.0));
            assert_eq!(translation_x(&poses_t2.poses()[1]), Some(2.0));
        }
        _ => panic!("the query is along a motion"),
    }
    let mut stray = RobotFKResult::new_empty(4);
    stray.set_pose(3, pose_at(0.0)).unwrap();
    let r = module.shape_collection_query(
        &input,
        &vec![stray],
        RobotLinkShapeRepresentation::Cubes,
    );
    assert_eq!(r.err(), Some(OptimaError::IndexOutOfBounds { index: 3, length: 3 }));
}

#[test]
fn shallow_contacts_are_skipped_until_reset() {
    let mut module: RobotGeometricShapeModule<f64, &'static str> = RobotGeometricShapeModule::new();
    let mut cubes = robot_collection();
    let preprocessing = RobotShapeCollectionPreprocessing::new(4);
    preprocessing.finish(&mut cubes, &SquareArray2D::new(4, true, 1.0)).unwrap();
    module.add_robot_shape_collection(cubes);
    let cubes = RobotLinkShapeRepresentation::Cubes;
    let skip = |module: &RobotGeometricShapeModule<f64, &'static str>, a: usize, b: usize| {
        module.robot_shape_collection(&cubes).unwrap().shape_collection().skip_from_idxs(a, b)
    };
    assert_eq!(skip(&module, 2, 3), Ok(false));
    assert_eq!(skip(&module, 0, 1), Ok(true));
    assert_eq!(
        module.set_robot_joint_state_as_non_collision(
            &RobotLinkShapeRepresentation::TriangleMeshes,
            &vec![]
        ),
        Err(OptimaError::SchemeNotPreprocessed)
    );
    assert_eq!(
        module.set_robot_joint_state_as_non_collision(
            &cubes,
            &vec![(signature(2, 0), signature(1, 0)), (signature(9, 9), signature(1, 0))]
        ),
        Err(OptimaError::UnknownShapeSignature)
    );
    assert_eq!(skip(&module, 2, 3), Ok(false));
    assert_eq!(
        module.set_robot_joint_state_as_non_collision(
            &cubes,
            &vec![(signature(2, 0), signature(1, 0))]
        ),
        Ok(())
    );
    assert_eq!(skip(&module, 2, 3), Ok(true));
    assert_eq!(skip(&module, 3, 2), Ok(true));
    assert_eq!(skip(&module, 0, 2), Ok(false));
    assert_eq!(
        module.reset_robot_geometric_shape_collection(RobotLinkShapeRepresentation::ConvexShapes),
        Ok(())
    );
    assert_eq!(skip(&module, 2, 3), Ok(true));
    assert_eq!(module.reset_robot_geometric_shape_collection(cubes), Ok(()));
    assert_eq!(skip(&module, 2, 3), Ok(false));
    assert_eq!(skip(&module, 0, 1), Ok(true));
    module
        .set_robot_joint_state_as_non_collision(&cubes, &vec![(signature(0, 0), signature(2, 0))])
        .unwrap();
    assert_eq!(skip(&module, 0, 3), Ok(true));
    assert_eq!(module.reset_all_robot_geometric_shape_collections(), Ok(()));
    assert_eq!(skip(&module, 0, 3), Ok(false));
    let shapes = module.robot_shape_collection(&cubes).unwrap().shape_collection();
    assert_eq!(shapes.average_distance_from_idxs(0, 3), Ok(Some(1.0)));
}

#[test]
fn tables_can_be_put_back() {
    let mut shapes = collection_of(&[signature(0, 0), signature(1, 0)]);
    let snapshot = shapes.tables_snapshot();
    assert_eq!(snapshot.num_shapes(), 2);
    shapes.replace_skip_from_idxs(true, 0, 1).unwrap();
    shapes.replace_average_distance_from_idxs(0.5, 1, 0).unwrap();
    assert_eq!(shapes.average_distance_from_idxs(0, 1), Ok(Some(0.5)));
    assert_eq!(shapes.restore_tables(&snapshot), Ok(()));
    assert_eq!(shapes.skip_from_idxs(0, 1), Ok(false));
    assert_eq!(shapes.average_distance_from_idxs(0, 1), Ok(None));
    let mut larger = collection_of(&[signature(0, 0), signature(1, 0), signature(2, 0)]);
    assert_eq!(
        larger.restore_tables(&snapshot),
        Err(OptimaError::IndexOutOfBounds { index: 2, length: 3 })
    );
    assert_eq!(
        shapes.skip_from_idxs(2, 0),
        Err(OptimaError::IndexOutOfBounds { index: 2, length: 2 })
    );
    assert_eq!(
        shapes.replace_average_distance_from_idxs(1.0, 0, 2),
        Err(OptimaError::IndexOutOfBounds { index: 2, length: 2 })
    );
}

#[test]
fn stop_and_log_conditions() {
    assert!(!StopCondition::Never.stops_after(true));
    assert!(!StopCondition::Never.stops_after(false));
    assert!(StopCondition::Intersection.stops_after(true));
    assert!(!StopCondition::Intersection.stops_after(false));
    assert!(LogCondition::LogAll.keeps(false));
    assert!(LogCondition::LogAll.keeps(true));
    assert!(LogCondition::Intersection.keeps(true));
    assert!(!LogCondition::Intersection.keeps(false));
}

#[test]
fn sampling_draws_more_than_the_least_samples() {
    let collection = robot_collection();
    let asked = std::cell::Cell::new(0usize);
    let counts = RobotShapeCollectionPreprocessing::sample_until_finished(
        collection.shape_collection(),
        || true,
        |drawn| {
            assert_eq!(drawn, asked.get());
            asked.set(drawn + 1);
            Ok(vec![colliding(signature(1, 0), signature(2, 0))])
        },
    )
    .unwrap();
    assert_eq!(counts.count(), MIN_SAMPLES + 1);
    assert_eq!(counts.collisions(2, 3), Ok(MIN_SAMPLES + 1));
    // Time is up after a thousand samples.
    let drawn_so_far = std::cell::Cell::new(0usize);
    let counts = RobotShapeCollectionPreprocessing::sample_until_finished(
        collection.shape_collection(),
        || drawn_so_far.get() >= 1000,
        |drawn| {
            drawn_so_far.set(drawn + 1);
            Ok(vec![colliding(signature(1, 0), signature(2, 0))])
        },
    )
    .unwrap();
    assert_eq!(counts.count(), 1000);
    let mut collection = robot_collection();
    counts.finish(&mut collection, &SquareArray2D::new(4, true, 0.0)).unwrap();
    assert_eq!(collection.shape_collection().skip_from_idxs(2, 3), Ok(true));
    let r = RobotShapeCollectionPreprocessing::sample_until_finished(
        collection.shape_collection(),
        || false,
        |_| Ok(vec![colliding(signature(9, 9), signature(2, 0))]),
    );
    assert_eq!(r.err(), Some(OptimaError::UnknownShapeSignature));
}

#[test]
fn sampling_ends_at_once_where_a_sample_fails() {
    let collection = robot_collection();
    let asked = std::cell::Cell::new(0usize);
    let r = RobotShapeCollectionPreprocessing::sample_until_finished(
        collection.shape_collection(),
        || false,
        |drawn| {
            asked.set(asked.get() + 1);
            if drawn == 3 {
                Err(OptimaError::StateSizeMismatch { given: 1, expected: 2 })
            } else {
                Ok(vec![])
            }
        },
    );
    assert_eq!(r.err(), Some(OptimaError::StateSizeMismatch { given: 1, expected: 2 }));
    assert_eq!(asked.get(), 4);
}
