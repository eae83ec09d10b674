//! The buffer graph: updates, cycle rejection, path search, lookups and
//! interpolation on realistic robot-arm data.

use nalgebra::geometry::Isometry3;
use nalgebra::{Quaternion, Translation3, UnitQuaternion};
use schiebung::buffer::BufferTree;
use schiebung::types::{StampedIsometry, TfError, TransformType};

/// Seconds to integer nanoseconds.
fn secs(s: f64) -> i64 {
    (s * 1_000_000_000.0) as i64
}

/// A stamped pose from plain doubles.
fn stamped(translation: [f64; 3], rotation: [f64; 4], stamp_ns: i64) -> StampedIsometry {
    StampedIsometry::new(
        [
            translation[0].to_bits(),
            translation[1].to_bits(),
            translation[2].to_bits(),
        ],
        [
            rotation[0].to_bits(),
            rotation[1].to_bits(),
            rotation[2].to_bits(),
            rotation[3].to_bits(),
        ],
        stamp_ns,
    )
}

fn identity_stamped(stamp_ns: i64) -> StampedIsometry {
    stamped([0.0, 0.0, 0.0], [0.0, 0.0, 0.0, 1.0], stamp_ns)
}

/// The returned pose as a nalgebra isometry.
fn to_iso(si: &StampedIsometry) -> Isometry3<f64> {
    let t = si.translation();
    let r = si.rotation();
    Isometry3::from_parts(
        Translation3::new(
            f64::from_bits(t[0]),
            f64::from_bits(t[1]),
            f64::from_bits(t[2]),
        ),
        UnitQuaternion::from_quaternion(Quaternion::new(
            f64::from_bits(r[3]),
            f64::from_bits(r[0]),
            f64::from_bits(r[1]),
            f64::from_bits(r[2]),
        )),
    )
}

fn history_of(buffer: &BufferTree, from: usize, to: usize) -> Option<Vec<StampedIsometry>> {
    for e in buffer.edges.iter() {
        if e.from == from && e.to == to {
            return Some(e.history.history.clone());
        }
    }
    None
}

fn close(a: f64, b: f64, eps: f64) -> bool {
    (a - b).abs() <= eps
}

#[test]
fn test_buffer_tree_update() {
    let mut buffer_tree = BufferTree::new();

    let source = "A".to_string();
    let target = "B".to_string();

    let stamped_isometry = identity_stamped(secs(1.0));

    // Add first transformation
    buffer_tree
        .update(
            source.clone(),
            target.clone(),
            stamped_isometry,
            TransformType::Static,
        )
        .unwrap();

    // Ensure the nodes exist
    let source_idx = buffer_tree.index.index(source.clone());
    let target_idx = buffer_tree.index.index(target.clone());

    assert!(buffer_tree.contains_node(source_idx));
    assert!(buffer_tree.contains_node(target_idx));

    // Ensure edge exists
    let history = history_of(&buffer_tree, source_idx, target_idx).unwrap();
    assert_eq!(history.len(), 1);
    assert_eq!(history.first().unwrap().stamp(), secs(1.0));

    // Add another transformation
    let stamped_isometry_2 = identity_stamped(secs(2.0));
    buffer_tree
        .update(
            source.clone(),
            target.clone(),
            stamped_isometry_2,
            TransformType::Static,
        )
        .unwrap();

    // Ensure the history is updated
    let history = history_of(&buffer_tree, source_idx, target_idx).unwrap();
    assert_eq!(history.len(), 2);
    assert_eq!(history.last().unwrap().stamp(), secs(2.0));
}

#[test]
fn test_buffer_tree_detects_cycles() {
    let mut buffer_tree = BufferTree::new();

    let a = "A".to_string();
    let b = "B".to_string();
    let c = "C".to_string();

    let stamped_isometry = identity_stamped(secs(1.0));

    // Add edges A -> B and B -> C
    buffer_tree
        .update(a.clone(), b.clone(), stamped_isometry, TransformType::Static)
        .unwrap();
    buffer_tree
        .update(b.clone(), c.clone(), stamped_isometry, TransformType::Static)
        .unwrap();

    // Creating a cycle C -> A must fail
    let result = buffer_tree.update(c.clone(), a.clone(), stamped_isometry, TransformType::Static);
    assert!(result.is_err());
    let a_idx = buffer_tree.index.index(a);
    let b_idx = buffer_tree.index.index(b);
    let c_idx = buffer_tree.index.index(c);
    assert!(buffer_tree.contains_node(a_idx));
    assert!(buffer_tree.contains_node(b_idx));
    assert!(buffer_tree.contains_node(c_idx));
}

#[test]
fn test_multiple_incoming_edges() {
    let mut buffer_tree = BufferTree::new();

    let a = "A".to_string();
    let b = "B".to_string();
    let c = "C".to_string();

    let stamped_isometry = identity_stamped(secs(1.0));

    buffer_tree
        .update(a.clone(), b.clone(), stamped_isometry, TransformType::Static)
        .unwrap();
    let result = buffer_tree.update(c.clone(), b.clone(), stamped_isometry, TransformType::Static);
    assert!(result.is_err());
    let a_idx = buffer_tree.index.index(a);
    let b_idx = buffer_tree.index.index(b);
    let c_idx = buffer_tree.index.index(c);
    assert!(buffer_tree.contains_node(a_idx));
    assert!(buffer_tree.contains_node(b_idx));
    assert!(!buffer_tree.contains_node(c_idx));
}

#[test]
fn test_find_path() {
    let mut buffer_tree = BufferTree::new();

    buffer_tree
        .update(
            "A".to_string(),
            "B".to_string(),
            identity_stamped(secs(1.0)),
            TransformType::Dynamic,
        )
        .unwrap();

    buffer_tree
        .update(
            "A".to_string(),
            "C".to_string(),
            identity_stamped(secs(2.0)),
            TransformType::Dynamic,
        )
        .unwrap();

    buffer_tree
        .update(
            "B".to_string(),
            "D".to_string(),
            identity_stamped(secs(3.0)),
            TransformType::Dynamic,
        )
        .unwrap();

    buffer_tree
        .update(
            "B".to_string(),
            "E".to_string(),
            identity_stamped(secs(3.0)),
            TransformType::Dynamic,
        )
        .unwrap();

    println!("{:?}", buffer_tree.visualize());

    let result = buffer_tree.find_path("D".to_string(), "B".to_string());
    assert_eq!(
        result,
        Some(vec![
            buffer_tree.index.index("D".to_string()),
            buffer_tree.index.index("B".to_string())
        ])
    );

    let result = buffer_tree.find_path("D".to_string(), "C".to_string());
    assert_eq!(
        result,
        Some(vec![
            buffer_tree.index.index("D".to_string()),
            buffer_tree.index.index("B".to_string()),
            buffer_tree.index.index("A".to_string()),
            buffer_tree.index.index("C".to_string()),
        ])
    );

    let result = buffer_tree.find_path("D".to_string(), "E".to_string());
    assert_eq!(
        result,
        Some(vec![
            buffer_tree.index.index("D".to_string()),
            buffer_tree.index.index("B".to_string()),
            buffer_tree.index.index("E".to_string()),
        ])
    );

    let result = buffer_tree.find_path("A".to_string(), "E".to_string());
    assert_eq!(
        result,
        Some(vec![
            buffer_tree.index.index("A".to_string()),
            buffer_tree.index.index("B".to_string()),
            buffer_tree.index.index("E".to_string()),
        ])
    );
}

fn robot_arm_transforms() -> Vec<(&'static str, &'static str, [f64; 3], [f64; 4])> {
    vec![
        (
            "upper_arm_link",
            "forearm_link",
            [-0.425, 0.0, 0.0],
            [0.0, 0.0, 0.0, 1.0],
        ),
        (
            "shoulder_link",
            "upper_arm_link",
            [0.0, 0.0, 0.0],
            [
                0.5001990421112379,
                0.49980087872426926,
                -0.4998008786217583,
                0.5001990420086454,
            ],
        ),
        (
            "base_link_inertia",
            "shoulder_link",
            [0.0, 0.0, 0.1625],
            [0.0, 0.0, 0.0, 1.0],
        ),
        (
            "forearm_link",
            "wrist_1_link",
            [-0.3922, 0.0, 0.1333],
            [0.0, 0.0, -0.7068251811053659, 0.7073882691671998],
        ),
        (
            "wrist_1_link",
            "wrist_2_link",
            [0.0, -0.0997, -2.044881182297852e-11],
            [0.7071067812590626, 0.0, 0.0, 0.7071067811140325],
        ),
        (
            "wrist_2_link",
            "wrist_3_link",
            [0.0, 0.0996, -2.042830148012698e-11],
            [
                -0.7071067812590626,
                8.659560562354933e-17,
                8.880526795522719e-27,
                0.7071067811140325,
            ],
        ),
    ]
}

#[test]
fn test_robot_arm_transforms() {
    let mut buffer_tree = BufferTree::new();

    // One sample per edge, stamped with seconds and nanoseconds
    let timestamp: i64 = 1741097108 * 1_000_000_000 + 171207063;

    for (source, target, translation, rotation) in robot_arm_transforms() {
        buffer_tree
            .update(
                source.to_string(),
                target.to_string(),
                stamped(translation, rotation, timestamp),
                TransformType::Dynamic,
            )
            .unwrap();
    }

    let transform = buffer_tree
        .lookup_latest_transform("base_link_inertia".to_string(), "shoulder_link".to_string());
    assert!(transform.is_ok());
    let iso = to_iso(&transform.unwrap());
    let translation = iso.translation.vector;
    let rotation = iso.rotation.into_inner();

    // Check translation components
    assert!(close(translation[0], 0.0, 1e-3));
    assert!(close(translation[1], 0.0, 1e-3));
    assert!(close(translation[2], 0.1625, 1e-3));

    // Check quaternion components (w, x, y, z)
    assert!(close(rotation.w, 1.0, 1e-3));
    assert!(close(rotation.i, 0.0, 1e-3));
    assert!(close(rotation.j, 0.0, 1e-3));
    assert!(close(rotation.k, 0.001, 1e-3));

    // Paths exist between arbitrary frames
    let path =
        buffer_tree.find_path("base_link_inertia".to_string(), "wrist_3_link".to_string());
    assert!(path.is_some());

    // Transforms can be looked up across the whole chain
    let transform = buffer_tree
        .lookup_latest_transform("base_link_inertia".to_string(), "wrist_3_link".to_string());
    assert!(transform.is_ok());

    let iso = to_iso(&transform.unwrap());
    let translation = iso.translation.vector;
    let rotation = iso.rotation.euler_angles();

    assert!(close(translation[0], -0.001, 1e-3));
    assert!(close(translation[1], -0.233, 1e-3));
    assert!(close(translation[2], 1.079, 1e-3));

    assert!(close(rotation.0, -1.571, 1e-2));
    assert!(close(rotation.1, -0.002, 1e-2));
    assert!(close(rotation.2, 3.142, 1e-2));
}

#[test]
fn test_robot_arm_transform_inverse() {
    let mut buffer_tree = BufferTree::new();

    let timestamp: i64 = 1741097108 * 1_000_000_000 + 171207063;

    for (source, target, translation, rotation) in robot_arm_transforms() {
        buffer_tree
            .update(
                source.to_string(),
                target.to_string(),
                stamped(translation, rotation, timestamp),
                TransformType::Dynamic,
            )
            .unwrap();
    }

    println!("{}", buffer_tree.visualize());
    let transform = buffer_tree
        .lookup_latest_transform("wrist_3_link".to_string(), "base_link_inertia".to_string());
    assert!(transform.is_ok());
    let iso = to_iso(&transform.unwrap());
    let translation = iso.translation.vector;
    let rotation = iso.rotation.euler_angles();

    // Translation of the inverse transform
    assert!(close(translation[0], 0.001, 1e-3));
    assert!(close(translation[1], 1.079, 1e-3));
    assert!(close(translation[2], -0.233, 1e-3));

    // Euler angles of the inverse transform
    assert!(close(rotation.0, -1.571, 1e-2));
    assert!(close(rotation.1, 0.00, 1e-2));
    assert!(close(rotation.2, 3.14, 1e-2));
}

#[test]
fn test_robot_arm_transforms_interpolation() {
    let mut buffer_tree = BufferTree::new();

    let timestamp_1 = secs(1.0);
    let timestamp_2 = secs(2.0);

    for (source, target, translation, rotation) in robot_arm_transforms() {
        buffer_tree
            .update(
                source.to_string(),
                target.to_string(),
                stamped(translation, rotation, timestamp_1),
                TransformType::Dynamic,
            )
            .unwrap();
        buffer_tree
            .update(
                source.to_string(),
                target.to_string(),
                stamped(translation, rotation, timestamp_2),
                TransformType::Dynamic,
            )
            .unwrap();
    }

    let transform = buffer_tree.lookup_transform(
        "base_link_inertia".to_string(),
        "shoulder_link".to_string(),
        secs(1.5),
    );
    assert!(transform.is_ok());
    let iso = to_iso(&transform.unwrap());
    let translation = iso.translation.vector;
    let rotation = iso.rotation.into_inner();

    assert!(close(translation[0], 0.0, 1e-3));
    assert!(close(translation[1], 0.0, 1e-3));
    assert!(close(translation[2], 0.1625, 1e-3));

    assert!(close(rotation.w, 1.0, 1e-3));
    assert!(close(rotation.i, 0.0, 1e-3));
    assert!(close(rotation.j, 0.0, 1e-3));
    assert!(close(rotation.k, 0.001, 1e-3));

    let path =
        buffer_tree.find_path("base_link_inertia".to_string(), "wrist_3_link".to_string());
    assert!(path.is_some());

    let transform = buffer_tree
        .lookup_latest_transform("base_link_inertia".to_string(), "wrist_3_link".to_string());
    assert!(transform.is_ok());

    let iso = to_iso(&transform.unwrap());
    let translation = iso.translation.vector;
    let rotation = iso.rotation.euler_angles();

    assert!(close(translation[0], -0.001, 1e-3));
    assert!(close(translation[1], -0.233, 1e-3));
    assert!(close(translation[2], 1.079, 1e-3));

    assert!(close(rotation.0, -1.571, 1e-2));
    assert!(close(rotation.1, -0.002, 1e-2));
    assert!(close(rotation.2, 3.142, 1e-2));

    // Correct errors outside the sampled range
    match buffer_tree.lookup_transform(
        "base_link_inertia".to_string(),
        "shoulder_link".to_string(),
        0,
    ) {
        Err(TfError::AttemptedLookupInPast) => {}
        _ => panic!("Expected TfError::AttemptedLookupInPast"),
    }
    match buffer_tree.lookup_transform(
        "base_link_inertia".to_string(),
        "shoulder_link".to_string(),
        secs(3.0),
    ) {
        Err(TfError::AttemptedLookUpInFuture) => {}
        _ => panic!("Expected TfError::AttemptedLookupInPast"),
    }
    match buffer_tree.lookup_transform("XXXXX".to_string(), "shoulder_link".to_string(), secs(3.0))
    {
        Err(TfError::CouldNotFindTransform) => {}
        _ => panic!("Expected TfError::AttemptedLookupInPast"),
    }
}

#[test]
fn lib_test_complex_interpolation() {
    let mut buffer_tree = BufferTree::new();

    // First set of transforms at t=0.0
    let transforms_t0: Vec<(&str, &str, [f64; 3], [f64; 4])> = vec![
        (
            "a",
            "b",
            [0.9542820082386645, -0.6552492462418078, 0.7161777435789107],
            [
                0.5221303556354912,
                0.35012976926397515,
                0.06385453213291199,
                0.06388534296762166,
            ],
        ),
        (
            "b",
            "c",
            [
                -0.19846060797892018,
                0.37060239713344223,
                -0.9325041671812722,
            ],
            [
                0.17508543470264146,
                0.015141878067977513,
                0.7464281310309472,
                0.0633445561984338,
            ],
        ),
        (
            "c",
            "d",
            [-0.794492125974928, 0.3998294717449842, 0.10994520945722774],
            [
                0.09927023004042039,
                0.3127284173757304,
                0.09323219806580624,
                0.49476915451804293,
            ],
        ),
        (
            "d",
            "e",
            [
                -0.10568484318994975,
                -0.25311133155256416,
                -0.5050832697305845,
            ],
            [
                0.34253037231148725,
                0.18360347226679302,
                0.03909759741077618,
                0.43476855801094355,
            ],
        ),
        (
            "e",
            "f",
            [
                0.08519341627411214,
                -0.21820466927246485,
                -0.49430885607234565,
            ],
            [
                0.5030721633460956,
                0.42228251371020586,
                0.05757558742063205,
                0.017069735523066495,
            ],
        ),
    ];

    // Second set of transforms at t=1.0
    let transforms_t1: Vec<(&str, &str, [f64; 3], [f64; 4])> = vec![
        (
            "a",
            "b",
            [-0.2577564261850547, 0.7493551580360949, 0.9508883926449649],
            [
                0.22516451641196783,
                0.39948597131211394,
                0.2540343540211825,
                0.12131515825473572,
            ],
        ),
        (
            "b",
            "c",
            [
                0.8409405814571027,
                -0.9879602392577504,
                -0.13140102332772097,
            ],
            [
                0.1398908842037251,
                0.2758514837076157,
                0.24490871323462493,
                0.33934891885403434,
            ],
        ),
        (
            "c",
            "d",
            [
                0.22500109579960625,
                -0.1414475909286277,
                -0.14392029811070084,
            ],
            [
                0.19694092483717301,
                0.27122448763510776,
                0.4097865936798704,
                0.12204799384784887,
            ],
        ),
        (
            "d",
            "e",
            [
                -0.20684779237257978,
                -0.7643987654163593,
                -0.6253015724407152,
            ],
            [
                0.27849097201454626,
                0.15911896201926773,
                0.19901604722897315,
                0.3633740187372129,
            ],
        ),
        (
            "e",
            "f",
            [-0.09213549320472025, 0.7601862256435243, -0.84895940549366],
            [
                0.002094505867313596,
                0.13339467043347925,
                0.22297487081296374,
                0.6415359528862433,
            ],
        ),
    ];

    for (source, target, translation, rotation) in transforms_t0 {
        buffer_tree
            .update(
                source.to_string(),
                target.to_string(),
                stamped(translation, rotation, 0),
                TransformType::Dynamic,
            )
            .unwrap();
    }

    for (source, target, translation, rotation) in transforms_t1 {
        buffer_tree
            .update(
                source.to_string(),
                target.to_string(),
                stamped(translation, rotation, secs(1.0)),
                TransformType::Dynamic,
            )
            .unwrap();
    }

    // Test cases computed with a reference implementation
    let test_cases: Vec<(f64, &str, &str, [f64; 3], [f64; 4])> = vec![
        (
            0.2,
            "a",
            "f",
            [-0.02688966809486315, 0.8302180267299373, 1.6491944090937691],
            [
                -0.23762484510717535,
                0.7704449853702972,
                -0.44625068910795557,
                -0.38834170517242694,
            ],
        ),
        (
            0.5,
            "a",
            "f",
            [-0.7313014953477409, 0.8588360737131203, 1.3897218882465063],
            [
                -0.20299191732296193,
                0.9561102276829774,
                0.10847159958471206,
                -0.1813323636450122,
            ],
        ),
        (
            0.8,
            "a",
            "f",
            [-1.5366396114062963, 0.5615052687815749, 1.2753385241243729],
            [
                0.025710201700027795,
                0.8191599958838035,
                0.5182799902870279,
                0.2443393917080692,
            ],
        ),
        (
            0.2,
            "f",
            "a",
            [1.7623488465323582, 0.4146044950680975, 0.36339631387666715],
            [
                0.23762484510717535,
                0.7704449853702972,
                -0.44625068910795557,
                -0.38834170517242694,
            ],
        ),
        (
            0.5,
            "f",
            "a",
            [0.8453152942269395, 1.4598104847572575, 0.5984342964929825],
            [
                0.20299191732296193,
                0.9561102276829774,
                0.10847159958471206,
                -0.1813323636450122,
            ],
        ),
        (
            0.8,
            "f",
            "a",
            [-0.43273825025921875, 1.1678464326290772, 1.6588882210342657],
            [
                -0.025710201700027795,
                0.8191599958838035,
                0.5182799902870279,
                0.2443393917080692,
            ],
        ),
    ];

    for (time, source, target, translation, rotation) in test_cases {
        let result = buffer_tree
            .lookup_transform(source.to_string(), target.to_string(), secs(time))
            .unwrap();
        let iso = to_iso(&result);

        let expected_translation =
            nalgebra::Vector3::new(translation[0], translation[1], translation[2]);
        let expected_rotation = UnitQuaternion::from_quaternion(Quaternion::new(
            rotation[0], // w
            rotation[1], // x
            rotation[2], // y
            rotation[3], // z
        ));

        for k in 0..3 {
            assert!(close(iso.translation.vector[k], expected_translation[k], 1e-6));
        }
        // Quaternions double-cover rotations: q and -q agree
        let q = iso.rotation.into_inner();
        let e = expected_rotation.into_inner();
        let direct = (q.w - e.w).abs().max((q.i - e.i).abs()).max((q.j - e.j).abs()).max(
            (q.k - e.k).abs(),
        );
        let flipped = (q.w + e.w).abs().max((q.i + e.i).abs()).max((q.j + e.j).abs()).max(
            (q.k + e.k).abs(),
        );
        assert!(direct <= 1e-6 || flipped <= 1e-6);
    }
}
