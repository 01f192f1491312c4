use kinematics::{
    Arena, IKError, Isometry, JacobianIKSolver, JointError, JointType, Link, LinkBuilder, Motion, Range, RcKinematicChain,
    RcLinkTree, Scalar, SolverStep, UnitQuaternion, Vector3,
};
use nalgebra::{DMatrix, DVector, Isometry3, Quaternion, RealField, Translation3, Unit};

fn encode<T: RealField + Copy>(x: T) -> Scalar {
    let wide: f64 = nalgebra::try_convert(x).unwrap();
    assert!(!wide.is_nan());
    let bits = (wide + 0.0).to_bits() as i64;
    if bits < 0 {
        bits ^ i64::MAX
    } else {
        bits
    }
}

fn decode<T: RealField + Copy>(code: Scalar) -> T {
    let bits = if code < 0 { code ^ i64::MAX } else { code };
    nalgebra::convert(f64::from_bits(bits as u64))
}

fn vector3<T: RealField + Copy>(x: T, y: T, z: T) -> Vector3 {
    Vector3 { x: encode(x), y: encode(y), z: encode(z) }
}

fn decode_vector<T: RealField + Copy>(v: Vector3) -> nalgebra::Vector3<T> {
    nalgebra::Vector3::new(decode(v.x), decode(v.y), decode(v.z))
}

fn motion_to_isometry<T: RealField + Copy>(motion: Motion) -> Isometry3<T> {
    match motion {
        Motion::Translate(v) => {
            Isometry3::from_parts(Translation3::from(decode_vector(v)), nalgebra::UnitQuaternion::identity())
        }
        Motion::Rotate(q) => {
            let rotation = nalgebra::UnitQuaternion::from_quaternion(Quaternion::new(
                decode(q.w),
                decode(q.i),
                decode(q.j),
                decode(q.k),
            ));
            Isometry3::from_parts(Translation3::identity(), rotation)
        }
        Motion::Revolve { axis, angle } => {
            let axis = Unit::new_normalize(decode_vector::<T>(axis));
            let rotation = nalgebra::UnitQuaternion::from_axis_angle(&axis, decode(angle));
            Isometry3::from_parts(Translation3::identity(), rotation)
        }
        Motion::Slide { axis, distance } => {
            let shift = decode_vector::<T>(axis) * decode::<T>(distance);
            Isometry3::from_parts(Translation3::from(shift), nalgebra::UnitQuaternion::identity())
        }
    }
}

fn evaluate<T: RealField + Copy>(transform: &Isometry) -> Isometry3<T> {
    let mut product = Isometry3::identity();
    for k in 0..transform.len() {
        product *= motion_to_isometry::<T>(transform.factor(k));
    }
    product
}

fn get_angles<T: RealField + Copy>(chain: &RcKinematicChain, tree: &RcLinkTree) -> Vec<T> {
    chain.get_joint_angles(tree).into_iter().map(decode).collect()
}

fn set_angles<T: RealField + Copy>(
    chain: &RcKinematicChain,
    tree: &mut RcLinkTree,
    angles: &[T],
) -> Result<(), JointError> {
    let codes: Vec<Scalar> = angles.iter().map(|&a| encode(a)).collect();
    chain.set_joint_angles(tree, &codes)
}

fn end_transform<T: RealField + Copy>(chain: &RcKinematicChain, tree: &RcLinkTree) -> Isometry3<T> {
    evaluate(&chain.calc_end_transform(tree))
}

fn pose_error<T: RealField + Copy>(current: &Isometry3<T>, target: &Isometry3<T>) -> DVector<T> {
    let shift = target.translation.vector - current.translation.vector;
    let turn = (target.rotation * current.rotation.inverse()).scaled_axis();
    DVector::from_vec(vec![shift[0], shift[1], shift[2], turn[0], turn[1], turn[2]])
}

fn damped_update<T: RealField + Copy>(
    jacobian: &DMatrix<T>,
    error: &DVector<T>,
    damping: T,
    bound: T,
) -> Result<DVector<T>, IKError> {
    let rows = jacobian.nrows();
    let normal = jacobian * jacobian.transpose() + DMatrix::identity(rows, rows) * (damping * damping);
    let solved = normal.lu().solve(error).ok_or(IKError::SolverError)?;
    let update = -(jacobian.transpose() * solved);
    if update.iter().any(|d| !d.is_finite()) {
        return Err(IKError::SolverError);
    }
    let largest = update.amax();
    Ok(if largest > bound { update * (bound / largest) } else { update })
}

fn solve<T: RealField + Copy>(
    solver: &JacobianIKSolver,
    chain: &RcKinematicChain,
    tree: &mut RcLinkTree,
    target: &Isometry3<T>,
) -> Result<(), IKError> {
    let epsilon: T = decode(solver.jacobian_move_epsilon);
    let damping: T = nalgebra::convert(1.0e-6);
    let bound: T = nalgebra::convert(0.5);
    let mut run = solver.begin();
    loop {
        let angles: Vec<T> = get_angles(chain, tree);
        let error = pose_error(&end_transform(chain, tree), target);
        let distance = error.rows(0, 3).norm();
        let angle = error.rows(3, 3).norm();
        let step = solver.advance(&mut run, encode(distance), encode(angle));
        assert!(run.tries <= solver.num_max_try);
        if let Some(answer) = JacobianIKSolver::outcome(step) {
            return answer;
        }
        assert_eq!(step, SolverStep::Iterate);
        let mut jacobian = DMatrix::zeros(6, angles.len());
        for i in 0..angles.len() {
            let mut moved = angles.clone();
            let mut step = epsilon;
            moved[i] = angles[i] + step;
            if set_angles(chain, tree, &moved) == Err(JointError::OutOfLimit) {
                step = -epsilon;
                moved[i] = angles[i] + step;
                set_angles(chain, tree, &moved).map_err(IKError::Joint)?;
            }
            let column = (pose_error(&end_transform(chain, tree), target) - &error) / step;
            jacobian.set_column(i, &column);
        }
        set_angles(chain, tree, &angles).map_err(IKError::Joint)?;
        let update = damped_update(&jacobian, &error, damping, bound)?;
        let proposed: Vec<Scalar> = angles.iter().zip(update.iter()).map(|(&a, &d)| encode(a + d)).collect();
        JacobianIKSolver::apply_update(chain, tree, &proposed)?;
    }
}

fn solver_from<T: RealField + Copy>(epsilon: T, distance: T, angle: T, tries: usize) -> JacobianIKSolver {
    JacobianIKSolver::new(encode(epsilon), encode(distance), encode(angle), tries)
}

fn x_axis<T: RealField + Copy>() -> Vector3 {
    vector3(T::one(), T::zero(), T::zero())
}

fn y_axis<T: RealField + Copy>() -> Vector3 {
    vector3(T::zero(), T::one(), T::zero())
}

fn z_axis<T: RealField + Copy>() -> Vector3 {
    vector3(T::zero(), T::zero(), T::one())
}

fn turning<T: RealField + Copy>(name: &str, joint: &str, axis: Vector3, offset: Option<(T, T, T)>) -> Link {
    let builder = LinkBuilder::new().name(name).joint(joint, JointType::Rotational { axis }, None);
    match offset {
        Some((x, y, z)) => builder.translation(vector3(x, y, z)).finalize(),
        None => builder.finalize(),
    }
}

fn chain_of(links: Vec<Link>, name: &str) -> (RcKinematicChain, RcLinkTree) {
    let mut arena = Arena::new();
    let ids: Vec<usize> = links.into_iter().map(|l| arena.create_node(l)).collect();
    for pair in ids.windows(2) {
        arena.attach(pair[0], pair[1]).unwrap();
    }
    let tree = RcLinkTree::new(name, arena, ids[0]);
    let chain = RcKinematicChain::new(name, &tree, *ids.last().unwrap());
    (chain, tree)
}

fn create_joint_with_link_array6() -> (RcKinematicChain, RcLinkTree) {
    let links = vec![
        turning::<f64>("shoulder_link1", "shoulder_pitch", y_axis::<f64>(), None),
        turning("shoulder_link2", "shoulder_roll", x_axis::<f64>(), Some((0.0, 0.1, 0.0))),
        turning("shoulder_link3", "shoulder_yaw", z_axis::<f64>(), Some((0.0, 0.0, -0.30))),
        turning("elbow_link1", "elbow_pitch", y_axis::<f64>(), Some((0.0, 0.0, -0.15))),
        turning("wrist_link1", "wrist_yaw", z_axis::<f64>(), Some((0.0, 0.0, -0.15))),
        turning("wrist_link2", "wrist_pitch", y_axis::<f64>(), Some((0.0, 0.0, -0.15))),
    ];
    chain_of(links, "arm6")
}

fn create_joint_with_link_array7() -> (RcKinematicChain, RcLinkTree) {
    let links = vec![
        turning::<f32>("shoulder_link1", "shoulder_pitch", y_axis::<f32>(), None),
        turning::<f32>("shoulder_link2", "shoulder_roll", x_axis::<f32>(), Some((0.0, 0.1, 0.0))),
        turning::<f32>("shoulder_link3", "shoulder_yaw", z_axis::<f32>(), Some((0.0, 0.0, -0.30))),
        turning::<f32>("elbow_link1", "elbow_pitch", y_axis::<f32>(), Some((0.0, 0.0, -0.15))),
        turning::<f32>("wrist_link1", "wrist_yaw", z_axis::<f32>(), Some((0.0, 0.0, -0.15))),
        turning::<f32>("wrist_link2", "wrist_pitch", y_axis::<f32>(), Some((0.0, 0.0, -0.15))),
        turning::<f32>("wrist_link3", "wrist_roll", x_axis::<f32>(), Some((0.0, 0.0, -0.10))),
    ];
    chain_of(links, "arm")
}

#[test]
fn ik_fk7() {
    let (arm, mut tree) = create_joint_with_link_array7();
    let angles: Vec<f32> = vec![0.8, 0.2, 0.0, -1.5, 0.0, -0.3, 0.0];
    set_angles(&arm, &mut tree, &angles).unwrap();
    let init_pose: Isometry3<f32> = end_transform(&arm, &tree);
    let solver = solver_from::<f32>(0.001, 0.001, 0.001, 100);
    solve(&solver, &arm, &mut tree, &init_pose).unwrap();
    let end_angles: Vec<f32> = get_angles(&arm, &tree);
    for (init, end) in angles.iter().zip(end_angles.iter()) {
        assert!((init - end).abs() < 0.001);
    }
}

#[test]
fn ik_fk6() {
    let (arm, mut tree) = create_joint_with_link_array6();
    let angles: Vec<f64> = vec![0.8, 0.2, 0.0, -1.2, 0.0, 0.1];
    set_angles(&arm, &mut tree, &angles).unwrap();
    let init_pose: Isometry3<f64> = end_transform(&arm, &tree);
    let solver = solver_from::<f64>(0.001, 0.001, 0.001, 100);
    // set different angles
    set_angles(&arm, &mut tree, &[0.4, 0.1, 0.1, -1.0, 0.1, 0.1]).unwrap();
    solve(&solver, &arm, &mut tree, &init_pose).unwrap();
    let end_angles: Vec<f64> = get_angles(&arm, &tree);
    for (init, end) in angles.iter().zip(end_angles.iter()) {
        assert!((init - end).abs() < 0.001);
    }
}

#[test]
fn ik_gives_up_on_a_target_out_of_reach() {
    let (arm, mut tree) = create_joint_with_link_array6();
    let start: Vec<f64> = vec![0.4, 0.1, 0.1, -1.0, 0.1, 0.1];
    set_angles(&arm, &mut tree, &start).unwrap();
    let target = Isometry3::from_parts(Translation3::new(5.0, 0.0, 0.0), nalgebra::UnitQuaternion::identity());
    let solver = solver_from::<f64>(0.001, 0.001, 0.001, 5);
    assert_eq!(solve(&solver, &arm, &mut tree, &target), Err(IKError::NotConverged));
    let left: Vec<f64> = get_angles(&arm, &tree);
    assert!(left.iter().zip(start.iter()).any(|(a, b)| a != b));
}

#[test]
fn ik_stays_within_the_joint_limits() {
    let limit = Range::new(encode(-0.5_f64), encode(0.5_f64));
    let links: Vec<Link> = vec![
        LinkBuilder::new()
            .name("a")
            .joint("ja", JointType::Rotational { axis: y_axis::<f64>() }, Some(limit))
            .finalize(),
        LinkBuilder::new()
            .name("b")
            .joint("jb", JointType::Rotational { axis: x_axis::<f64>() }, Some(limit))
            .translation(vector3(0.0_f64, 0.0, -0.3))
            .finalize(),
        LinkBuilder::new()
            .name("c")
            .joint("jc", JointType::Rotational { axis: y_axis::<f64>() }, Some(limit))
            .translation(vector3(0.0_f64, 0.0, -0.3))
            .finalize(),
    ];
    let (arm, mut tree) = chain_of(links, "short");
    let target = Isometry3::from_parts(Translation3::new(0.6, 0.0, 0.0), nalgebra::UnitQuaternion::identity());
    let solver = solver_from::<f64>(0.001, 0.001, 0.001, 20);
    assert_eq!(solve(&solver, &arm, &mut tree, &target), Err(IKError::NotConverged));
    for angle in get_angles::<f64>(&arm, &tree) {
        assert!(-0.5 <= angle && angle <= 0.5);
    }
}

#[test]
fn codes_keep_the_order_of_the_numbers() {
    let numbers: Vec<f64> = vec![-1.0e300, -2.5, -1.0, -1.0e-300, 0.0, 1.0e-300, 0.001, 1.0, 2.5, 1.0e300];
    for pair in numbers.windows(2) {
        assert!(encode(pair[0]) < encode(pair[1]));
    }
    for &x in &numbers {
        assert_eq!(decode::<f64>(encode(x)), x);
    }
    assert_eq!(encode(0.0_f64), 0);
    assert_eq!(encode(-0.0_f64), 0);
    assert_eq!(encode(0.5_f32), encode(0.5_f64));
    assert_eq!(decode::<f32>(encode(0.1_f32)), 0.1_f32);
}

#[test]
fn evaluation_of_one_revolving_link() {
    let (arm, mut tree) = chain_of(
        vec![
            turning::<f64>("a", "ja", z_axis::<f64>(), Some((1.0, 0.0, 0.0))),
            turning::<f64>("b", "jb", z_axis::<f64>(), Some((1.0, 0.0, 0.0))),
        ],
        "planar",
    );
    let quarter = std::f64::consts::FRAC_PI_2;
    set_angles(&arm, &mut tree, &[quarter, 0.0]).unwrap();
    let end: Isometry3<f64> = end_transform(&arm, &tree);
    assert!((end.translation.vector - nalgebra::Vector3::new(1.0, 1.0, 0.0)).norm() < 1.0e-12);
    assert!((end.rotation.angle() - quarter).abs() < 1.0e-12);
    let by_hand = Isometry3::from_parts(
        Translation3::new(1.0, 0.0, 0.0),
        nalgebra::UnitQuaternion::from_axis_angle(&nalgebra::Vector3::z_axis(), quarter),
    ) * Isometry3::from_parts(
        Translation3::new(1.0, 0.0, 0.0),
        nalgebra::UnitQuaternion::from_axis_angle(&nalgebra::Vector3::z_axis(), 0.0),
    );
    assert!((end.translation.vector - by_hand.translation.vector).norm() < 1.0e-12);
    assert!(end.rotation.angle_to(&by_hand.rotation) < 1.0e-12);
}

#[test]
fn evaluation_of_a_sliding_link_and_a_fixed_rotation() {
    let half_turn = nalgebra::UnitQuaternion::from_axis_angle(&nalgebra::Vector3::z_axis(), std::f64::consts::PI);
    let rotation = UnitQuaternion {
        w: encode(half_turn.w),
        i: encode(half_turn.i),
        j: encode(half_turn.j),
        k: encode(half_turn.k),
    };
    let links = vec![
        LinkBuilder::new().name("turned").rotation(rotation).finalize(),
        LinkBuilder::new()
            .name("slider")
            .joint("rail", JointType::Linear { axis: x_axis::<f64>() }, None)
            .finalize(),
    ];
    let (arm, mut tree) = chain_of(links, "rail");
    set_angles(&arm, &mut tree, &[0.25_f64]).unwrap();
    let end: Isometry3<f64> = end_transform(&arm, &tree);
    assert!((end.translation.vector - nalgebra::Vector3::new(-0.25, 0.0, 0.0)).norm() < 1.0e-12);
}

#[test]
fn it_works() {
    let link = |name: &str, joint: &str, z: f32| {
        LinkBuilder::new()
            .name(name)
            .translation(vector3::<f32>(0.0, 0.1, z))
            .joint(joint, JointType::Rotational { axis: y_axis::<f32>() }, None)
            .finalize()
    };
    let l0 = link("link0", "j0", 0.0);
    let l1 = link("link1", "j1", 0.1);
    let l2 = link("link2", "j2", 0.1);
    let l3 = link("link3", "j3", 0.2);
    let l4 = link("link4", "j4", 0.1);
    let l5 = link("link5", "j5", 0.1);

    let mut arena = Arena::new();
    let ljn0 = arena.create_node(l0);
    let ljn1 = arena.create_node(l1);
    let ljn2 = arena.create_node(l2);
    let ljn3 = arena.create_node(l3);
    let ljn4 = arena.create_node(l4);
    let ljn5 = arena.create_node(l5);
    arena.attach(ljn0, ljn1).unwrap();
    arena.attach(ljn1, ljn2).unwrap();
    arena.attach(ljn2, ljn3).unwrap();
    arena.attach(ljn0, ljn4).unwrap();
    arena.attach(ljn4, ljn5).unwrap();
    let names = arena.map_descendants(ljn0, |ljn| ljn.get_joint_name().to_string());
    assert_eq!(names.len(), 6);
    println!("names = {:?}", names);
    let angles: Vec<Option<f32>> = arena.map_descendants(ljn0, |ljn| ljn.get_joint_angle().map(decode));
    println!("angles = {:?}", angles);

    let get_z = |arena: &Arena<Link>, id: usize| match arena.parent(id) {
        Some(parent) => {
            (evaluate::<f32>(&arena.get(parent).calc_transform()) * evaluate::<f32>(&arena.get(id).calc_transform()))
                .translation
                .vector
                .z
        }
        None => evaluate::<f32>(&arena.get(id).calc_transform()).translation.vector.z,
    };

    let poses: Vec<f32> = arena.descendants(ljn0).iter().map(|&id| get_z(&arena, id)).collect();
    println!("poses = {:?}", poses);

    for id in arena.descendants(ljn0) {
        let _ = arena.get_mut(id).set_joint_angle(encode(-0.5_f32));
    }
    let angles: Vec<Option<f32>> = arena.map_descendants(ljn0, |ljn| ljn.get_joint_angle().map(decode));
    println!("angles = {:?}", angles);

    let poses: Vec<f32> = arena.descendants(ljn0).iter().map(|&id| get_z(&arena, id)).collect();
    println!("poses = {:?}", poses);

    let tree = RcLinkTree::new("robo1", arena, ljn0);
    let mut arm = RcKinematicChain::new("chain1", &tree, ljn3);
    assert_eq!(arm.get_joint_angles(&tree).len(), 4);
    println!("{:?}", get_angles::<f32>(&arm, &tree));
    let real_end = arm.calc_end_transform(&tree);
    assert!(arm.get_end_link_name().is_none());
    arm.set_end_link_name(&tree, "link3").unwrap();
    assert!(arm.set_end_link_name(&tree, "linkhoge").is_err());
    assert!(arm.get_end_link_name().clone().unwrap() == "link3");
    // not changed if set same end link name
    assert_eq!(real_end, arm.calc_end_transform(&tree));
    assert_eq!(evaluate::<f32>(&real_end), end_transform::<f32>(&arm, &tree));
    arm.set_end_link_name(&tree, "link2").unwrap();
    assert!(arm.get_end_link_name().clone().unwrap() == "link2");
    assert!(real_end != arm.calc_end_transform(&tree));
    assert!(evaluate::<f32>(&real_end) != end_transform::<f32>(&arm, &tree));

    assert_eq!(tree.dof(), 6);

    let none_chain = tree.chain_from_end_link_name("link_nono");
    assert!(none_chain.is_none());
    let some_chain = tree.chain_from_end_link_name("link3");
    assert!(some_chain.is_some());
    assert_eq!(some_chain.unwrap().get_joint_angles(&tree).len(), 4);
}

#[test]
fn ik_reports_an_unusable_solve() {
    let (arm, mut tree) = create_joint_with_link_array6();
    set_angles(&arm, &mut tree, &[0.4_f64, 0.1, 0.1, -1.0, 0.1, 0.1]).unwrap();
    let target =
        Isometry3::from_parts(Translation3::new(f64::INFINITY, 0.0, 0.0), nalgebra::UnitQuaternion::identity());
    let solver = solver_from::<f64>(0.001, 0.001, 0.001, 5);
    assert_eq!(solve(&solver, &arm, &mut tree, &target), Err(IKError::SolverError));
}

#[test]
fn ik_converges_at_once_on_the_pose_it_holds() {
    let (arm, mut tree) = create_joint_with_link_array6();
    let angles: Vec<f64> = vec![0.3, -0.2, 0.5, -0.7, 0.2, 0.4];
    set_angles(&arm, &mut tree, &angles).unwrap();
    let target: Isometry3<f64> = end_transform(&arm, &tree);
    let solver = solver_from::<f64>(0.001, 0.001, 0.001, 0);
    assert_eq!(solve(&solver, &arm, &mut tree, &target), Ok(()));
    assert_eq!(get_angles::<f64>(&arm, &tree), angles);
}

#[test]
fn ik_round_trip_on_a_second_pose() {
    let (arm, mut tree) = create_joint_with_link_array6();
    let angles: Vec<f64> = vec![-0.4, 0.3, 0.2, 0.9, -0.3, 0.5];
    set_angles(&arm, &mut tree, &angles).unwrap();
    let target: Isometry3<f64> = end_transform(&arm, &tree);
    set_angles(&arm, &mut tree, &[-0.3_f64, 0.2, 0.1, 0.8, -0.2, 0.4]).unwrap();
    let solver = solver_from::<f64>(0.001, 0.001, 0.001, 100);
    solve(&solver, &arm, &mut tree, &target).unwrap();
    let reached: Isometry3<f64> = end_transform(&arm, &tree);
    assert!((reached.translation.vector - target.translation.vector).norm() <= 0.001);
    assert!(reached.rotation.angle_to(&target.rotation) <= 0.001);
    for (init, end) in angles.iter().zip(get_angles::<f64>(&arm, &tree).iter()) {
        assert!((init - end).abs() < 0.001);
    }
}
