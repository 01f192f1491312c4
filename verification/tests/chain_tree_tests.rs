use kinematics::{
    Arena, Isometry, JointError, JointType, Link, LinkBuilder, Motion, NodeIter, Range, RcKinematicChain,
    RcLinkTree, Vector3,
};

fn axis() -> Vector3 {
    Vector3 { x: 0, y: 1, z: 0 }
}

fn shift(z: i64) -> Vector3 {
    Vector3 { x: 0, y: 0, z }
}

fn turning(name: &str, joint: &str, z: i64, limits: Option<Range>) -> Link {
    LinkBuilder::new()
        .name(name)
        .joint(joint, JointType::Rotational { axis: axis() }, limits)
        .translation(shift(z))
        .finalize()
}

fn welded(name: &str, joint: &str, z: i64) -> Link {
    LinkBuilder::new().name(name).joint(joint, JointType::Fixed, None).translation(shift(z)).finalize()
}

fn factors(transform: &Isometry) -> Vec<Motion> {
    (0..transform.len()).map(|k| transform.factor(k)).collect()
}

fn turn(angle: i64) -> Motion {
    Motion::Revolve { axis: axis(), angle }
}

fn push(z: i64) -> Motion {
    Motion::Translate(shift(z))
}

/// L0 - L1 - L2 - L3 in a line; L1 is welded, L2 has limits.
fn line() -> RcLinkTree {
    let mut arena = Arena::new();
    let n0 = arena.create_node(turning("L0", "j0", 10, None));
    let n1 = arena.create_node(welded("L1", "j1", 11));
    let n2 = arena.create_node(turning("L2", "j2", 12, Some(Range::new(-50, 50))));
    let n3 = arena.create_node(turning("L3", "j3", 13, None));
    arena.attach(n0, n1).unwrap();
    arena.attach(n1, n2).unwrap();
    arena.attach(n2, n3).unwrap();
    RcLinkTree::new("line", arena, n0)
}

/// A root with two branches: 0 - 1 - 2 and 0 - 3; node 3 is welded.
fn fork() -> RcLinkTree {
    let mut arena = Arena::new();
    let n0 = arena.create_node(turning("base", "j0", 1, None));
    let n1 = arena.create_node(turning("left", "j1", 2, None));
    let n2 = arena.create_node(turning("left_tip", "j2", 3, Some(Range::new(0, 9))));
    let n3 = arena.create_node(welded("right", "j3", 4));
    arena.attach(n0, n1).unwrap();
    arena.attach(n1, n2).unwrap();
    arena.attach(n0, n3).unwrap();
    RcLinkTree::new("fork", arena, n0)
}

#[test]
fn chain_lists_the_path_root_first() {
    let tree = line();
    let chain = RcKinematicChain::new("arm", &tree, 3);
    assert_eq!(chain.name, "arm");
    assert_eq!(chain.links, vec![0, 1, 2, 3]);
    assert!(chain.transform.is_identity());
    assert!(chain.get_end_link_name().is_none());
    let short = RcKinematicChain::new("short", &tree, 1);
    assert_eq!(short.links, vec![0, 1]);
    let forked = fork();
    assert_eq!(RcKinematicChain::new("right", &forked, 3).links, vec![0, 3]);
    assert_eq!(RcKinematicChain::new("left", &forked, 2).links, vec![0, 1, 2]);
}

#[test]
fn chain_counts_and_reads_movable_joints() {
    let tree = line();
    let chain = RcKinematicChain::new("arm", &tree, 3);
    assert_eq!(chain.dof(&tree), 3);
    assert_eq!(chain.get_joint_angles(&tree), vec![0, 0, 0]);
    assert_eq!(chain.get_joint_names(&tree), vec!["j0", "j2", "j3"]);
    assert_eq!(chain.get_link_names(&tree), vec!["L0", "L1", "L2", "L3"]);
    assert_eq!(chain.get_joint_limits(&tree), vec![None, Some(Range::new(-50, 50)), None]);
}

#[test]
fn chain_set_joint_angles_assigns_by_position() {
    let mut tree = line();
    let chain = RcKinematicChain::new("arm", &tree, 3);
    assert_eq!(chain.set_joint_angles(&mut tree, &[5, -6, 7]), Ok(()));
    assert_eq!(chain.get_joint_angles(&tree), vec![5, -6, 7]);
    assert_eq!(tree.link(0).get_joint_angle(), Some(5));
    assert_eq!(tree.link(1).get_joint_angle(), None);
    assert_eq!(tree.link(2).get_joint_angle(), Some(-6));
    assert_eq!(tree.link(3).get_joint_angle(), Some(7));
}

#[test]
fn chain_set_joint_angles_refuses_a_wrong_count() {
    let mut tree = line();
    let chain = RcKinematicChain::new("arm", &tree, 3);
    chain.set_joint_angles(&mut tree, &[1, 2, 3]).unwrap();
    assert_eq!(chain.set_joint_angles(&mut tree, &[9, 9]), Err(JointError::SizeMisMatch));
    assert_eq!(chain.get_joint_angles(&tree), vec![1, 2, 3]);
    assert_eq!(chain.set_joint_angles(&mut tree, &[9, 9, 9, 9]), Err(JointError::SizeMisMatch));
    assert_eq!(chain.get_joint_angles(&tree), vec![1, 2, 3]);
    assert_eq!(chain.set_joint_angles(&mut tree, &[]), Err(JointError::SizeMisMatch));
    assert_eq!(chain.get_joint_angles(&tree), vec![1, 2, 3]);
}

#[test]
fn chain_set_joint_angles_stops_at_the_refusing_joint() {
    let mut tree = line();
    let chain = RcKinematicChain::new("arm", &tree, 3);
    chain.set_joint_angles(&mut tree, &[1, 2, 3]).unwrap();
    assert_eq!(chain.set_joint_angles(&mut tree, &[40, 51, 42]), Err(JointError::OutOfLimit));
    assert_eq!(chain.get_joint_angles(&tree), vec![40, 2, 3]);
}

#[test]
fn chain_end_transform_folds_root_first() {
    let mut tree = line();
    let chain = RcKinematicChain::new("arm", &tree, 3);
    chain.set_joint_angles(&mut tree, &[5, 6, 7]).unwrap();
    assert_eq!(
        factors(&chain.calc_end_transform(&tree)),
        vec![push(10), turn(5), push(11), push(12), turn(6), push(13), turn(7)]
    );
}

#[test]
fn chain_end_transform_starts_from_the_base_transform() {
    let tree = line();
    let mut chain = RcKinematicChain::new("arm", &tree, 1);
    chain.transform = Isometry::from_motion(push(99));
    assert_eq!(factors(&chain.calc_end_transform(&tree)), vec![push(99), push(10), turn(0), push(11)]);
    assert_eq!(
        chain.calc_link_transforms(&tree).iter().map(factors).collect::<Vec<_>>(),
        vec![vec![push(99), push(10), turn(0)], vec![push(99), push(10), turn(0), push(11)]]
    );
}

#[test]
fn chain_end_link_name_truncates_the_fold() {
    let mut tree = line();
    let mut chain = RcKinematicChain::new("arm", &tree, 3);
    chain.set_joint_angles(&mut tree, &[5, 6, 7]).unwrap();
    let full = chain.calc_end_transform(&tree);
    assert_eq!(chain.set_end_link_name(&tree, "L1"), Ok(()));
    assert_eq!(chain.get_end_link_name(), &Some("L1".to_string()));
    let cut = chain.calc_end_transform(&tree);
    assert_eq!(factors(&cut), vec![push(10), turn(5), push(11)]);
    let first_two = RcKinematicChain::new("two", &tree, 1).calc_end_transform(&tree);
    assert_eq!(cut, first_two);
    assert!(cut != full);
    assert_eq!(chain.links, vec![0, 1, 2, 3]);
    assert_eq!(chain.calc_link_transforms(&tree).len(), 4);
    assert_eq!(chain.dof(&tree), 3);
}

#[test]
fn chain_end_link_name_must_be_in_the_chain() {
    let tree = line();
    let mut chain = RcKinematicChain::new("arm", &tree, 2);
    assert_eq!(chain.set_end_link_name(&tree, "L3"), Err("L3 not found".to_string()));
    assert!(chain.get_end_link_name().is_none());
    chain.set_end_link_name(&tree, "L0").unwrap();
    assert_eq!(chain.set_end_link_name(&tree, "nowhere"), Err("nowhere not found".to_string()));
    assert_eq!(chain.get_end_link_name(), &Some("L0".to_string()));
    assert_eq!(factors(&chain.calc_end_transform(&tree)), vec![push(10), turn(0)]);
}

#[test]
fn chain_link_transforms_are_cumulative() {
    let mut tree = line();
    let mut chain = RcKinematicChain::new("arm", &tree, 2);
    chain.set_joint_angles(&mut tree, &[5, 6]).unwrap();
    chain.set_end_link_name(&tree, "L0").unwrap();
    let all: Vec<Vec<Motion>> = chain.calc_link_transforms(&tree).iter().map(factors).collect();
    assert_eq!(
        all,
        vec![
            vec![push(10), turn(5)],
            vec![push(10), turn(5), push(11)],
            vec![push(10), turn(5), push(11), push(12), turn(6)],
        ]
    );
}

#[test]
fn tree_visits_in_pre_order() {
    let tree = fork();
    assert_eq!(tree.name(), "fork");
    assert_eq!(tree.root_link(), 0);
    assert_eq!(tree.iter(), &vec![0, 1, 2, 3]);
    assert_eq!(tree.get_link_names(), vec!["base", "left", "left_tip", "right"]);
    assert_eq!(tree.arena().len(), 4);
}

#[test]
fn tree_of_a_subtree_holds_only_what_lies_below() {
    let mut arena = Arena::new();
    let n0 = arena.create_node(turning("base", "j0", 1, None));
    let n1 = arena.create_node(turning("left", "j1", 2, None));
    let n2 = arena.create_node(turning("left_tip", "j2", 3, None));
    let n3 = arena.create_node(turning("right", "j3", 4, None));
    arena.attach(n0, n1).unwrap();
    arena.attach(n1, n2).unwrap();
    arena.attach(n0, n3).unwrap();
    let mut tree = RcLinkTree::new("left", arena, n1);
    assert_eq!(tree.iter(), &vec![1, 2]);
    assert_eq!(tree.dof(), 2);
    let transforms: Vec<Vec<Motion>> = tree.calc_link_transforms().iter().map(factors).collect();
    assert_eq!(transforms, vec![vec![push(2), turn(0)], vec![push(2), turn(0), push(3), turn(0)]]);
    assert!(tree.link(0).world_transform().is_none());
    assert!(tree.link(3).world_transform().is_none());
}

#[test]
fn tree_dof_counts_the_movable_joints() {
    assert_eq!(fork().dof(), 3);
    assert_eq!(line().dof(), 3);
    let mut arena = Arena::new();
    let only = arena.create_node(welded("plate", "weld", 0));
    let tree = RcLinkTree::new("plate", arena, only);
    assert_eq!(tree.dof(), 0);
    assert_eq!(tree.get_joint_angles(), Vec::<i64>::new());
    let movable = fork().iter_for_joints();
    assert_eq!(movable, vec![0, 1, 2]);
}

#[test]
fn tree_joint_accessors_skip_fixed_joints() {
    let tree = fork();
    assert_eq!(tree.get_joint_names(), vec!["j0", "j1", "j2"]);
    assert_eq!(tree.get_joint_limits(), vec![None, None, Some(Range::new(0, 9))]);
    assert_eq!(tree.get_joint_angles(), vec![0, 0, 0]);
    let links = tree.iter_for_joints_link();
    assert_eq!(links.iter().map(|l| l.name.as_str()).collect::<Vec<_>>(), vec!["base", "left", "left_tip"]);
}

#[test]
fn tree_set_joint_angles_follows_the_traversal() {
    let mut tree = fork();
    assert_eq!(tree.set_joint_angles(&[7, 8, 9]), Ok(()));
    assert_eq!(tree.get_joint_angles(), vec![7, 8, 9]);
    assert_eq!(tree.link(2).get_joint_angle(), Some(9));
    assert_eq!(tree.link(3).get_joint_angle(), None);
}

#[test]
fn tree_set_joint_angles_refuses_a_wrong_count() {
    let mut tree = fork();
    tree.set_joint_angles(&[1, 2, 3]).unwrap();
    assert_eq!(tree.set_joint_angles(&[4, 5, 6, 7]), Err(JointError::SizeMisMatch));
    assert_eq!(tree.get_joint_angles(), vec![1, 2, 3]);
    assert_eq!(tree.set_joint_angles(&[4, 5]), Err(JointError::SizeMisMatch));
    assert_eq!(tree.get_joint_angles(), vec![1, 2, 3]);
}

#[test]
fn tree_set_joint_angles_stops_at_the_refusing_joint() {
    let mut tree = fork();
    tree.set_joint_angles(&[1, 2, 3]).unwrap();
    assert_eq!(tree.set_joint_angles(&[4, 5, 10]), Err(JointError::OutOfLimit));
    assert_eq!(tree.get_joint_angles(), vec![4, 5, 3]);
}

#[test]
fn tree_link_transforms_compose_parent_and_local() {
    let mut tree = fork();
    tree.set_joint_angles(&[7, 8, 9]).unwrap();
    let transforms: Vec<Vec<Motion>> = tree.calc_link_transforms().iter().map(factors).collect();
    assert_eq!(
        transforms,
        vec![
            vec![push(1), turn(7)],
            vec![push(1), turn(7), push(2), turn(8)],
            vec![push(1), turn(7), push(2), turn(8), push(3), turn(9)],
            vec![push(1), turn(7), push(4)],
        ]
    );
    for (k, &id) in tree.iter().iter().enumerate() {
        assert_eq!(factors(tree.link(id).world_transform().unwrap()), transforms[k]);
    }
}

#[test]
fn tree_link_transforms_twice_give_the_same() {
    let mut tree = fork();
    tree.set_joint_angles(&[7, 8, 9]).unwrap();
    let first = tree.calc_link_transforms();
    let second = tree.calc_link_transforms();
    assert_eq!(first, second);
    let chain = RcKinematicChain::new("left", &tree, 2);
    assert_eq!(chain.calc_link_transforms(&tree), chain.calc_link_transforms(&tree));
}

#[test]
fn tree_cache_is_stale_until_the_next_pass() {
    let mut tree = fork();
    assert!(tree.link(1).world_transform().is_none());
    tree.calc_link_transforms();
    let before = tree.link(1).world_transform().unwrap().clone();
    tree.set_joint_angles(&[7, 8, 9]).unwrap();
    assert_eq!(tree.link(1).world_transform().unwrap(), &before);
    tree.calc_link_transforms();
    assert_eq!(factors(tree.link(1).world_transform().unwrap()), vec![push(1), turn(7), push(2), turn(8)]);
}

#[test]
fn tree_and_chain_agree_on_a_path() {
    let mut tree = fork();
    tree.set_joint_angles(&[7, 8, 9]).unwrap();
    let world = tree.calc_link_transforms();
    let chain = tree.chain_from_end_link_name("left_tip").unwrap();
    assert_eq!(chain.calc_end_transform(&tree), world[2]);
    let right = tree.chain_from_end_link_name("right").unwrap();
    assert_eq!(right.calc_end_transform(&tree), world[3]);
}

#[test]
fn tree_makes_a_chain_by_the_name_of_the_end_link() {
    let tree = fork();
    let chain = tree.chain_from_end_link_name("left_tip").unwrap();
    assert_eq!(chain.name, "left_tip");
    assert_eq!(chain.links, vec![0, 1, 2]);
    assert!(chain.get_end_link_name().is_none());
    assert_eq!(tree.chain_from_end_link_name("right").unwrap().links, vec![0, 3]);
    assert_eq!(tree.chain_from_end_link_name("base").unwrap().links, vec![0]);
    assert!(tree.chain_from_end_link_name("tail").is_none());
}

#[test]
fn node_iter_walks_the_links_in_order() {
    let tree = fork();
    let mut links: NodeIter<'_, Link> = tree.iter_link();
    let mut names = Vec::new();
    while let Some(link) = links.next() {
        names.push(link.name.clone());
    }
    assert_eq!(names, vec!["base", "left", "left_tip", "right"]);
    assert!(links.next().is_none());
}

#[test]
fn node_iter_mut_hands_out_each_link_once() {
    let mut tree = fork();
    {
        let mut links = tree.iter_link_mut();
        let mut value = 1;
        while let Some(link) = links.next() {
            let _ = link.set_joint_angle(value);
            value += 1;
        }
        assert!(links.next().is_none());
    }
    assert_eq!(tree.get_joint_angles(), vec![1, 2, 3]);
    {
        let mut links = tree.iter_mut();
        links.next().unwrap().set_joint_angle(-4).unwrap();
    }
    assert_eq!(tree.get_joint_angles(), vec![-4, 2, 3]);
    assert_eq!(tree.iter(), &vec![0, 1, 2, 3]);
}

#[test]
fn link_mut_changes_one_link() {
    let mut tree = fork();
    tree.link_mut(1).set_joint_angle(33).unwrap();
    assert_eq!(tree.get_joint_angles(), vec![0, 33, 0]);
}
