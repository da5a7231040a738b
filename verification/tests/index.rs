use nbody::body::{Body, BodyStore, Entity, MalformedInput, MASS_LIMIT};
use nbody::com::COM;
use nbody::octree::{OctNode, Octree, OctreeError};
use nbody::vec3::{Moment, Vec3, COORD_LIMIT};

fn body_at(x: i64, y: i64, z: i64, mass: u64) -> Body {
    Body {
        position: Vec3::new(x, y, z),
        vel: Vec3::new(0, 0, 0),
        mass,
        angular_vel: Vec3::new(0, 0, 0),
    }
}

fn insert_all(store: &BodyStore, tree: &mut Octree, order: &[usize]) {
    for &i in order {
        assert_eq!(tree.add(store, Entity(i)), Ok(()));
    }
}

fn children_of(tree: &Octree) -> &Vec<Octree> {
    match &tree.node {
        OctNode::Branch { children, .. } => children,
        _ => panic!("not a branch"),
    }
}

#[test]
fn three_bodies_make_one_branch() {
    let mut store = BodyStore::new();
    let a = store.spawn(body_at(512, 0, 0, 1)).unwrap();
    let b = store.spawn(body_at(0, 512, 0, 1)).unwrap();
    let c = store.spawn(body_at(0, 0, 512, 1)).unwrap();
    let mut tree = Octree::empty(Vec3::new(0, 0, 0), 1024);
    insert_all(&store, &mut tree, &[0, 1, 2]);
    assert_eq!(tree.pos, Vec3::new(0, 0, 0));
    assert_eq!(tree.size, 1024);
    match &tree.node {
        OctNode::Branch { com, children } => {
            assert_eq!(*com, COM { sum: Moment::new(512, 512, 512), mass: 3 });
            assert_eq!(children.len(), 8);
            assert_eq!(children[1].node, OctNode::Leaf(a));
            assert_eq!(children[2].node, OctNode::Leaf(b));
            assert_eq!(children[4].node, OctNode::Leaf(c));
            for i in [0, 3, 5, 6, 7] {
                assert_eq!(children[i].node, OctNode::Empty);
            }
        }
        _ => panic!("not a branch"),
    }
}

#[test]
fn body_on_the_far_face_grows_the_root() {
    let mut store = BodyStore::new();
    let e = store.spawn(body_at(1, 0, 0, 1)).unwrap();
    let mut tree = Octree::empty(Vec3::new(0, 0, 0), 1);
    assert_eq!(tree.add(&store, e), Ok(()));
    assert_eq!(tree.pos, Vec3::new(0, 0, 0));
    assert_eq!(tree.size, 2);
    let children = children_of(&tree);
    assert_eq!(children[0], Octree::empty(Vec3::new(0, 0, 0), 1));
    assert_eq!(children[1], Octree::leaf_unchecked(Vec3::new(1, 0, 0), 1, e));
    for i in 2..8 {
        assert_eq!(children[i].node, OctNode::Empty);
        assert_eq!(children[i].size, 1);
    }
    assert_eq!(tree.aggregate(&store), COM { sum: Moment::new(1, 0, 0), mass: 1 });
}

#[test]
fn root_aggregate_is_the_centre_of_mass() {
    let mut store = BodyStore::new();
    let bodies = [
        body_at(10, 20, 30, 1),
        body_at(-40, 5, 7, 2),
        body_at(100, -300, 9, 3),
        body_at(3, 3, 3, 10),
    ];
    for b in bodies {
        store.spawn(b).unwrap();
    }
    let mut tree = Octree::empty(Vec3::new(0, 0, 0), 16);
    insert_all(&store, &mut tree, &[0, 1, 2, 3]);
    let total = tree.aggregate(&store);
    assert_eq!(total.mass, 16);
    assert_eq!(total.sum, Moment::new(10 - 80 + 300 + 30, 20 + 10 - 900 + 30, 30 + 14 + 27 + 30));
    // 260 / 16 = 16.25, -840 / 16 = -52.5, 101 / 16 = 6.3125, each rounded down
    assert_eq!(total.com(), Some((Vec3::new(16, -53, 6), 16)));
}

#[test]
fn insertion_order_does_not_matter_inside_the_root() {
    let mut store = BodyStore::new();
    let bodies = [
        body_at(1, 1, 1, 4),
        body_at(2, 1, 1, 5),
        body_at(100, 7, 60, 6),
        body_at(101, 7, 60, 7),
        body_at(0, 127, 0, 8),
        body_at(64, 64, 64, 9),
    ];
    for b in bodies {
        store.spawn(b).unwrap();
    }
    let mut first = Octree::empty(Vec3::new(0, 0, 0), 128);
    insert_all(&store, &mut first, &[0, 1, 2, 3, 4, 5]);
    let mut second = Octree::empty(Vec3::new(0, 0, 0), 128);
    insert_all(&store, &mut second, &[5, 3, 1, 4, 2, 0]);
    let mut third = Octree::empty(Vec3::new(0, 0, 0), 128);
    insert_all(&store, &mut third, &[2, 0, 4, 1, 5, 3]);
    assert_eq!(first, second);
    assert_eq!(first, third);
    assert_eq!(first.aggregate(&store).mass, 39);
}

#[test]
fn growth_depends_on_order_but_the_aggregate_does_not() {
    let mut store = BodyStore::new();
    store.spawn(body_at(1, 0, 0, 1)).unwrap();
    store.spawn(body_at(-1, 0, 0, 1)).unwrap();
    let mut first = Octree::empty(Vec3::new(0, 0, 0), 1);
    insert_all(&store, &mut first, &[0, 1]);
    let mut second = Octree::empty(Vec3::new(0, 0, 0), 1);
    insert_all(&store, &mut second, &[1, 0]);
    assert_eq!((first.pos, first.size), (Vec3::new(-2, 0, 0), 4));
    assert_eq!((second.pos, second.size), (Vec3::new(-1, 0, 0), 4));
    assert_eq!(first.aggregate(&store), second.aggregate(&store));
    assert_eq!(first.aggregate(&store), COM { sum: Moment::new(0, 0, 0), mass: 2 });
}

#[test]
fn membership_is_half_open() {
    let cube = Octree::empty(Vec3::new(-4, 0, 8), 4);
    assert!(cube.contains(Vec3::new(-4, 0, 8)));
    assert!(cube.contains(Vec3::new(-1, 3, 11)));
    assert!(!cube.contains(Vec3::new(0, 0, 8)));
    assert!(!cube.contains(Vec3::new(-4, 4, 8)));
    assert!(!cube.contains(Vec3::new(-4, 0, 12)));
    assert!(!cube.contains(Vec3::new(-5, 0, 8)));
    assert!(!cube.contains(Vec3::new(-4, -1, 8)));
    assert!(!cube.contains(Vec3::new(-4, 0, 7)));
    let whole = Octree::empty(Vec3::new(i64::MAX - 1, 0, 0), i64::MAX);
    assert!(whole.contains(Vec3::new(i64::MAX, 5, 5)));
}

#[test]
fn exactly_one_child_contains_a_point_of_the_branch() {
    let mut store = BodyStore::new();
    store.spawn(body_at(0, 0, 0, 1)).unwrap();
    store.spawn(body_at(7, 7, 7, 1)).unwrap();
    let mut tree = Octree::empty(Vec3::new(0, 0, 0), 8);
    insert_all(&store, &mut tree, &[0, 1]);
    let children = children_of(&tree);
    for x in 0..8 {
        for y in 0..8 {
            for z in 0..8 {
                let p = Vec3::new(x, y, z);
                let holders: Vec<usize> =
                    (0..8).filter(|&i| children[i].contains(p)).collect();
                let octant = (x >= 4) as usize + 2 * (y >= 4) as usize + 4 * (z >= 4) as usize;
                assert_eq!(holders, vec![octant]);
            }
        }
    }
}

#[test]
fn growth_keeps_the_old_root_as_a_child() {
    let mut store = BodyStore::new();
    store.spawn(body_at(1, 1, 1, 2)).unwrap();
    store.spawn(body_at(3, 1, 1, 3)).unwrap();
    let far = store.spawn(body_at(-9, 2, 20, 5)).unwrap();
    let mut tree = Octree::empty(Vec3::new(0, 0, 0), 4);
    insert_all(&store, &mut tree, &[0, 1]);
    let mut old = Octree::empty(Vec3::new(0, 0, 0), 4);
    insert_all(&store, &mut old, &[0, 1]);
    let before = tree.aggregate(&store);
    assert_eq!(tree.add(&store, far), Ok(()));
    // the root doubles down in x twice, to -4 and -12, and once more upward,
    // until 20 is inside in z
    assert_eq!((tree.pos, tree.size), (Vec3::new(-12, 0, 0), 32));
    assert!(tree.contains(Vec3::new(-9, 2, 20)));
    let outer = children_of(&tree);
    assert_eq!(outer[4], Octree::leaf_unchecked(Vec3::new(-12, 0, 16), 16, far));
    let inner = children_of(&outer[0]);
    let innermost = children_of(&inner[1]);
    assert_eq!(innermost[1], old);
    let mut expected = before;
    expected.add(Vec3::new(-9, 2, 20), 5);
    assert_eq!(tree.aggregate(&store), expected);
    assert_eq!(outer[0].aggregate(&store), before);
}

#[test]
fn a_second_body_at_the_same_position_is_turned_away() {
    let mut store = BodyStore::new();
    let a = store.spawn(body_at(5, 5, 5, 1)).unwrap();
    let b = store.spawn(body_at(5, 5, 5, 2)).unwrap();
    let c = store.spawn(body_at(5, 5, 6, 2)).unwrap();
    let mut tree = Octree::empty(Vec3::new(0, 0, 0), 8);
    assert_eq!(tree.add(&store, a), Ok(()));
    assert_eq!(tree.add(&store, b), Err(OctreeError::DegenerateGeometry));
    assert_eq!(tree, Octree::leaf_unchecked(Vec3::new(0, 0, 0), 8, a));
    assert_eq!(tree.add(&store, c), Ok(()));
    let snapshot = tree.aggregate(&store);
    assert_eq!(tree.add(&store, b), Err(OctreeError::DegenerateGeometry));
    assert_eq!(tree.add(&store, a), Err(OctreeError::DegenerateGeometry));
    assert_eq!(tree.aggregate(&store), snapshot);
    assert_eq!(snapshot.mass, 3);
}

#[test]
fn neighbours_on_the_lattice_are_separated() {
    let mut store = BodyStore::new();
    let a = store.spawn(body_at(0, 0, 0, 1)).unwrap();
    let b = store.spawn(body_at(1, 0, 0, 1)).unwrap();
    let mut tree = Octree::empty(Vec3::new(0, 0, 0), 4);
    insert_all(&store, &mut tree, &[0, 1]);
    let outer = children_of(&tree);
    let inner = children_of(&outer[0]);
    assert_eq!(inner[0], Octree::leaf_unchecked(Vec3::new(0, 0, 0), 1, a));
    assert_eq!(inner[1], Octree::leaf_unchecked(Vec3::new(1, 0, 0), 1, b));
}

#[test]
fn an_unknown_handle_is_skipped() {
    let mut store = BodyStore::new();
    let a = store.spawn(body_at(1, 2, 3, 1)).unwrap();
    let mut tree = Octree::empty(Vec3::new(0, 0, 0), 4);
    assert_eq!(tree.add(&store, Entity(1)), Ok(()));
    assert_eq!(tree, Octree::empty(Vec3::new(0, 0, 0), 4));
    assert_eq!(tree.add(&store, a), Ok(()));
    assert_eq!(tree.add(&store, Entity(17)), Ok(()));
    assert_eq!(tree, Octree::leaf_unchecked(Vec3::new(0, 0, 0), 4, a));
}

#[test]
fn total_mass_beyond_the_accumulator_is_turned_away() {
    let mut store = BodyStore::new();
    for x in 0..4 {
        store.spawn(body_at(x, 0, 0, MASS_LIMIT)).unwrap();
    }
    let light = store.spawn(body_at(0, 1, 0, 1)).unwrap();
    let mut tree = Octree::empty(Vec3::new(0, 0, 0), 4);
    insert_all(&store, &mut tree, &[0, 1, 2]);
    assert_eq!(tree.add(&store, Entity(3)), Err(OctreeError::MassOverflow));
    assert_eq!(tree.aggregate(&store).mass, 3 * MASS_LIMIT);
    assert_eq!(tree.add(&store, light), Ok(()));
    assert_eq!(tree.aggregate(&store).mass, 3 * MASS_LIMIT + 1);
}

#[test]
fn root_ok_wants_a_power_of_two_in_range() {
    assert!(Octree::root_ok(Vec3::new(0, 0, 0), 1));
    assert!(Octree::root_ok(Vec3::new(-COORD_LIMIT, COORD_LIMIT - 1, 0), 1 << 42));
    assert!(!Octree::root_ok(Vec3::new(0, 0, 0), 0));
    assert!(!Octree::root_ok(Vec3::new(0, 0, 0), -4));
    assert!(!Octree::root_ok(Vec3::new(0, 0, 0), 3));
    assert!(!Octree::root_ok(Vec3::new(0, 0, 0), 12));
    assert!(!Octree::root_ok(Vec3::new(0, 0, 0), 1 << 43));
    assert!(!Octree::root_ok(Vec3::new(COORD_LIMIT, 0, 0), 4));
    assert!(!Octree::root_ok(Vec3::new(0, -COORD_LIMIT - 1, 0), 4));
}

#[test]
fn the_root_reaches_the_corners_of_the_range() {
    let mut store = BodyStore::new();
    store.spawn(body_at(COORD_LIMIT - 1, COORD_LIMIT - 1, COORD_LIMIT - 1, 1)).unwrap();
    store.spawn(body_at(-COORD_LIMIT, -COORD_LIMIT, -COORD_LIMIT, 1)).unwrap();
    store.spawn(body_at(-COORD_LIMIT, COORD_LIMIT - 1, 0, 1)).unwrap();
    let mut tree = Octree::empty(Vec3::new(0, 0, 0), 1);
    insert_all(&store, &mut tree, &[0, 1, 2]);
    assert_eq!((tree.pos, tree.size), (Vec3::splat(-COORD_LIMIT), 1 << 41));
    assert_eq!(tree.aggregate(&store), COM {
        sum: Moment::new(
            -(COORD_LIMIT as i128) - 1,
            COORD_LIMIT as i128 - 2,
            -1,
        ),
        mass: 3,
    });
}

#[test]
fn spawn_checks_the_body() {
    let mut store = BodyStore::new();
    assert_eq!(store.spawn(body_at(0, 0, 0, 0)), Err(MalformedInput::Mass));
    assert_eq!(store.spawn(body_at(0, 0, 0, MASS_LIMIT + 1)), Err(MalformedInput::Mass));
    assert_eq!(store.spawn(body_at(COORD_LIMIT, 0, 0, 1)), Err(MalformedInput::Position));
    assert_eq!(store.spawn(body_at(0, -COORD_LIMIT - 1, 0, 1)), Err(MalformedInput::Position));
    let mut fast = body_at(0, 0, 0, 1);
    fast.vel = Vec3::new(0, 0, COORD_LIMIT);
    assert_eq!(store.spawn(fast), Err(MalformedInput::Velocity));
    let mut both = body_at(COORD_LIMIT, 0, 0, 0);
    both.vel = Vec3::new(COORD_LIMIT, 0, 0);
    assert_eq!(store.spawn(both), Err(MalformedInput::Mass));
    assert_eq!(store.len(), 0);
    assert_eq!(store.spawn(body_at(-COORD_LIMIT, COORD_LIMIT - 1, 0, MASS_LIMIT)), Ok(Entity(0)));
    assert_eq!(store.spawn(body_at(1, 1, 1, 1)), Ok(Entity(1)));
    assert_eq!(store.len(), 2);
    assert_eq!(store.get(Entity(1)), Some(&body_at(1, 1, 1, 1)));
    assert_eq!(store.get(Entity(2)), None);
}

#[test]
fn a_description_takes_defaults() {
    let zero = Vec3::new(0, 0, 0);
    assert_eq!(
        Body::with_defaults(None, None, None, None),
        Ok(Body { position: zero, vel: zero, mass: 1, angular_vel: zero })
    );
    assert_eq!(
        Body::with_defaults(
            Some(7),
            Some(Vec3::new(1, 2, 3)),
            Some(Vec3::new(4, 5, 6)),
            Some(Vec3::new(7, 8, 9))
        ),
        Ok(Body {
            position: Vec3::new(1, 2, 3),
            vel: Vec3::new(4, 5, 6),
            mass: 7,
            angular_vel: Vec3::new(7, 8, 9)
        })
    );
    assert_eq!(Body::with_defaults(Some(0), None, None, None), Err(MalformedInput::Mass));
    assert_eq!(
        Body::with_defaults(None, Some(Vec3::new(0, COORD_LIMIT, 0)), None, None),
        Err(MalformedInput::Position)
    );
    assert_eq!(
        Body::with_defaults(None, None, Some(Vec3::new(0, 0, -COORD_LIMIT - 1)), None),
        Err(MalformedInput::Velocity)
    );
}

#[test]
fn accumulators_merge_in_any_order() {
    let mut a = COM::zero();
    a.add(Vec3::new(1, -2, 3), 4);
    a.add(Vec3::new(-10, 20, 30), 5);
    let mut b = COM::zero();
    b.add(Vec3::new(-10, 20, 30), 5);
    b.add(Vec3::new(1, -2, 3), 4);
    assert_eq!(a, b);
    assert_eq!(a, COM { sum: Moment::new(4 - 50, -8 + 100, 12 + 150), mass: 9 });
    assert_eq!(a, COM::new(Vec3::new(1, -2, 3), 4, Vec3::new(-10, 20, 30), 5));
    assert_eq!(COM::point(Vec3::new(-3, 0, 2), 6), COM { sum: Moment::new(-18, 0, 12), mass: 6 });
    assert_eq!(COM::zero().com(), None);
    // -46 / 9 = -5.1, 92 / 9 = 10.2, 162 / 9 = 18
    assert_eq!(a.com(), Some((Vec3::new(-6, 10, 18), 9)));
}

#[test]
fn masks_and_selection_go_by_axis() {
    let p = Vec3::new(1, -2, 3);
    assert_eq!(p.ge_mask(Vec3::new(1, 0, 4)), 1);
    assert_eq!(p.ge_mask(Vec3::new(2, -2, 4)), 2);
    assert_eq!(p.ge_mask(Vec3::new(2, -1, 3)), 4);
    assert_eq!(p.ge_mask(Vec3::new(0, -3, 2)), 7);
    assert_eq!(p.ge_mask(Vec3::new(2, -1, 4)), 0);
    let (a, b) = (Vec3::new(1, 2, 3), Vec3::new(-1, -2, -3));
    assert_eq!(Vec3::select(0, a, b), b);
    assert_eq!(Vec3::select(1, a, b), Vec3::new(1, -2, -3));
    assert_eq!(Vec3::select(2, a, b), Vec3::new(-1, 2, -3));
    assert_eq!(Vec3::select(4, a, b), Vec3::new(-1, -2, 3));
    assert_eq!(Vec3::select(6, a, b), Vec3::new(-1, 2, 3));
    assert_eq!(Vec3::select(7, a, b), a);
    assert!(Vec3::new(-COORD_LIMIT, 0, COORD_LIMIT - 1).in_range());
    assert!(!Vec3::new(0, COORD_LIMIT, 0).in_range());
    assert!(!Vec3::new(0, 0, -COORD_LIMIT - 1).in_range());
}

#[test]
fn defaults_are_empty() {
    assert_eq!(COM::default(), COM::zero());
    assert_eq!(COM::default(), COM { sum: Moment::new(0, 0, 0), mass: 0 });
    assert_eq!(OctNode::default(), OctNode::Empty);
    assert_eq!(Octree::default(), Octree::empty(Vec3::new(0, 0, 0), 0));
    assert!(!Octree::root_ok(Octree::default().pos, Octree::default().size));
}

fn copies_of(tree: &Octree, wanted: &Octree) -> usize {
    let below = match &tree.node {
        OctNode::Branch { children, .. } => children.iter().map(|c| copies_of(c, wanted)).sum(),
        _ => 0,
    };
    below + (tree == wanted) as usize
}

#[test]
fn growth_keeps_one_copy_of_the_old_root() {
    let mut store = BodyStore::new();
    store.spawn(body_at(1, 1, 1, 2)).unwrap();
    store.spawn(body_at(3, 1, 1, 3)).unwrap();
    let far = store.spawn(body_at(-9, 2, 20, 5)).unwrap();
    let near = store.spawn(body_at(4, 0, 0, 1)).unwrap();
    let mut old = Octree::empty(Vec3::new(0, 0, 0), 4);
    insert_all(&store, &mut old, &[0, 1]);
    let mut tree = Octree::empty(Vec3::new(0, 0, 0), 4);
    insert_all(&store, &mut tree, &[0, 1]);
    assert_eq!(copies_of(&tree, &old), 1);
    assert_eq!(tree.add(&store, far), Ok(()));
    assert_eq!(copies_of(&tree, &old), 1);
    // one doubling: the old root becomes child 0, the body a leaf in child 1
    let mut once = Octree::empty(Vec3::new(0, 0, 0), 4);
    insert_all(&store, &mut once, &[0, 1]);
    assert_eq!(once.add(&store, near), Ok(()));
    assert_eq!((once.pos, once.size), (Vec3::new(0, 0, 0), 8));
    let children = children_of(&once);
    assert_eq!(children[0], old);
    assert_eq!(children[1], Octree::leaf_unchecked(Vec3::new(4, 0, 0), 4, near));
    for i in 2..8 {
        assert_eq!(children[i].node, OctNode::Empty);
    }
    assert_eq!(copies_of(&once, &old), 1);
}
